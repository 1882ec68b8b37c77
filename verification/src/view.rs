//! Views: immutable dense rectangular grids of optional cells, the
//! flattened output of a canvas.

use vstd::prelude::*;
use vstd::view::View as _;

use crate::annot::Annotate;
use crate::cell::Cell;

verus! {

/// The row-major index of the grid point `(x, y)` in a grid `w` wide.
pub open spec fn grid_idx(w: int, x: int, y: int) -> int {
    y * w + x
}

/// Distinct in-bounds grid points have distinct row-major indices.
pub proof fn lemma_grid_idx_inj(w: int, x1: int, y1: int, x2: int, y2: int)
    by (nonlinear_arith)
    requires
        w > 0,
        0 <= x1 < w,
        0 <= x2 < w,
        y1 >= 0,
        y2 >= 0,
    ensures
        (grid_idx(w, x1, y1) == grid_idx(w, x2, y2)) <==> (x1 == x2 && y1 == y2),
{
}

/// In-bounds grid points index inside the flat cell sequence.
pub proof fn lemma_grid_idx_bounds(w: int, h: int, x: int, y: int)
    by (nonlinear_arith)
    requires
        0 <= x < w,
        0 <= y < h,
    ensures
        0 <= grid_idx(w, x, y) < w * h,
{
}

/// An immutable row-major grid of optional cells holding exactly
/// `width * height` entries.
#[derive(Debug)]
pub struct View {
    width: u16,
    height: u16,
    cells: Vec<Option<Cell>>,
}

impl vstd::view::View for View {
    type V = Seq<Option<Cell>>;

    closed spec fn view(&self) -> Seq<Option<Cell>> {
        self.cells@
    }
}

impl View {
    /// The grid holds exactly `width * height` cells.
    pub open spec fn wf(&self) -> bool {
        self@.len() == self.spec_size().0 * self.spec_size().1
    }

    /// Create a view from its dimensions and row-major cells.
    pub fn new(width: u16, height: u16, cells: Vec<Option<Cell>>) -> (r: Self)
        requires
            cells@.len() == width * height,
        ensures
            r.wf(),
            r@ == cells@,
            r.spec_size() == (width, height),
    {
        Self { width, height, cells }
    }

    /// Returns the number of cells in the grid.
    pub fn len(&self) -> (r: usize)
        ensures
            r == self@.len(),
    {
        self.cells.len()
    }

    /// Returns `true` when the grid holds no cells.
    pub fn is_empty(&self) -> (r: bool)
        ensures
            r == (self@.len() == 0),
    {
        self.cells.is_empty()
    }

    /// Returns a copy of the cells in row-major order.
    pub fn to_vec(&self) -> (r: Vec<Option<Cell>>)
        ensures
            r@ == self@,
    {
        let mut r: Vec<Option<Cell>> = Vec::new();
        let mut i: usize = 0;
        while i < self.cells.len()
            invariant
                i <= self.cells.len(),
                r@ == self@.take(i as int),
            decreases self.cells.len() - i,
        {
            r.push(self.cells[i]);
            i = i + 1;
            assert(r@ =~= self@.take(i as int));
        }
        assert(r@ =~= self@);
        r
    }

    /// Returns one row of the grid, or an empty slice for a row outside it.
    pub fn get_line(&self, rows: u16) -> (r: &[Option<Cell>])
        requires
            self.wf(),
        ensures
            rows < self.spec_size().1 ==> r@ == self@.subrange(
                rows * self.spec_size().0,
                (rows + 1) * self.spec_size().0,
            ),
            rows >= self.spec_size().1 ==> r@.len() == 0,
    {
        if rows >= self.height {
            return &self.cells.as_slice()[0..0];
        }
        proof {
            assert((self.width as int) * (rows as int) <= (self.width as int) * ((rows as int) + 1)
                <= (self.spec_size().0 as int) * (self.spec_size().1 as int)
                <= 0xfffe_0001int) by (nonlinear_arith)
                requires
                    self.width == self.spec_size().0,
                    self.width <= 0xffff,
                    self.spec_size().1 <= 0xffff,
                    0 <= rows,
                    rows + 1 <= self.spec_size().1,
            ;
            assert(usize::MAX >= 0xffff_ffffnat);
        }
        let start = (self.width as usize) * (rows as usize);
        let end = (self.width as usize) * (rows as usize + 1);
        let r = &self.cells.as_slice()[start..end];
        proof {
            assert(start == rows * self.spec_size().0) by (nonlinear_arith)
                requires
                    start == (self.width as int) * (rows as int),
                    self.width == self.spec_size().0,
            ;
            assert(end == (rows + 1) * self.spec_size().0) by (nonlinear_arith)
                requires
                    end == (self.width as int) * ((rows as int) + 1),
                    self.width == self.spec_size().0,
            ;
        }
        r
    }
}

impl PartialEq for View {
    fn eq(&self, other: &Self) -> (r: bool) {
        if self.width != other.width || self.height != other.height || self.cells.len()
            != other.cells.len() {
            return false;
        }
        let mut i: usize = 0;
        while i < self.cells.len()
            invariant
                i <= self.cells.len(),
                self.cells.len() == other.cells.len(),
                self.spec_size() == other.spec_size(),
                forall|m: int| 0 <= m < i ==> self@[m] == other@[m],
            decreases self.cells.len() - i,
        {
            if self.cells[i] != other.cells[i] {
                return false;
            }
            i = i + 1;
        }
        assert(self@ =~= other@);
        true
    }
}

impl Eq for View {

}

impl vstd::std_specs::cmp::PartialEqSpecImpl for View {
    open spec fn obeys_eq_spec() -> bool {
        true
    }

    open spec fn eq_spec(&self, other: &Self) -> bool {
        self.spec_size() == other.spec_size() && self@ == other@
    }
}

impl Annotate for View {
    closed spec fn spec_size(&self) -> (u16, u16) {
        (self.width, self.height)
    }

    fn get_size(&self) -> (r: (u16, u16))
        ensures
            r == self.spec_size(),
    {
        (self.width, self.height)
    }
}

} // verus!
