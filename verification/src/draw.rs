//! Paint commands: one contiguous horizontal run of cells with an absolute
//! start position, ready for a renderer to turn into device writes.

use vstd::prelude::*;

use crate::cell::Cell;

verus! {

/// The mathematical value of a paint command: an absolute position and the
/// ordered cells to paint there.
#[verifier::ext_equal]
pub struct PaintCmd {
    /// The absolute start column.
    pub x: u16,
    /// The absolute start row.
    pub y: u16,
    /// The cells to paint, left to right.
    pub cells: Seq<Cell>,
}

/// A drawing command: a run of cells and the absolute position to paint it
/// at. A renderer turns it into a cursor move plus a styled write.
#[derive(Debug)]
pub struct DrawableSpan {
    moveto: (u16, u16),
    span: Vec<Cell>,
}

impl View for DrawableSpan {
    type V = PaintCmd;

    closed spec fn view(&self) -> PaintCmd {
        PaintCmd { x: self.moveto.0, y: self.moveto.1, cells: self.span@ }
    }
}

impl DrawableSpan {
    /// Create a new command from its absolute position and cells.
    pub fn new(moveto: (u16, u16), cells: Vec<Cell>) -> (r: Self)
        ensures
            r@ == (PaintCmd { x: moveto.0, y: moveto.1, cells: cells@ }),
    {
        Self { moveto, span: cells }
    }

    /// The absolute position this command paints at.
    pub fn moveto(&self) -> (r: (u16, u16))
        ensures
            r == (self@.x, self@.y),
    {
        self.moveto
    }

    /// The cells this command paints, left to right.
    pub fn cells(&self) -> (r: &Vec<Cell>)
        ensures
            r@ == self@.cells,
    {
        &self.span
    }
}

impl PartialEq for DrawableSpan {
    fn eq(&self, other: &Self) -> (r: bool) {
        if self.moveto.0 != other.moveto.0 || self.moveto.1 != other.moveto.1 || self.span.len()
            != other.span.len() {
            return false;
        }
        let mut i: usize = 0;
        while i < self.span.len()
            invariant
                i <= self.span.len(),
                self.span.len() == other.span.len(),
                self@.x == other@.x && self@.y == other@.y,
                forall|m: int| 0 <= m < i ==> self@.cells[m] == other@.cells[m],
            decreases self.span.len() - i,
        {
            if self.span[i] != other.span[i] {
                return false;
            }
            i = i + 1;
        }
        proof {
            assert(self@.cells =~= other@.cells);
            assert(self@ =~= other@);
        }
        true
    }
}

impl Eq for DrawableSpan {

}

impl vstd::std_specs::cmp::PartialEqSpecImpl for DrawableSpan {
    open spec fn obeys_eq_spec() -> bool {
        true
    }

    open spec fn eq_spec(&self, other: &Self) -> bool {
        self@ == other@
    }
}

} // verus!
