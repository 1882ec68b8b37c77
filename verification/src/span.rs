//! Runs of cells: ordered, front/back-mutable single-row strips, with
//! splitting by sorted column offsets.

use vstd::prelude::*;

use crate::annot::Annotate;
use crate::cell::Cell;
use crate::cell::cell_of_char;

verus! {

/// A single-row strip of cells. The tracked `len` always equals the number
/// of cells; a run's size is always `(len, 1)`.
#[derive(Debug)]
pub struct Span {
    len: u16,
    cells: Vec<Cell>,
}

impl View for Span {
    type V = Seq<Cell>;

    closed spec fn view(&self) -> Seq<Cell> {
        self.cells@
    }
}

/// The offsets are non-decreasing.
pub open spec fn sorted_offsets(s: Seq<u16>) -> bool {
    forall|i: int, j: int| 0 <= i < j < s.len() ==> s[i] <= s[j]
}

/// The cells of a string rendered with default styles.
pub open spec fn cells_of_str(s: Seq<char>) -> Seq<Cell> {
    s.map_values(|c: char| cell_of_char(c))
}

/// What one returned fragment of [`Span::split_by`] must be: the requested
/// slice when it lies inside the run, and nothing otherwise.
pub open spec fn fragment_matches(r: Option<Span>, cells: Seq<Cell>, lo: int, hi: int) -> bool {
    if 0 <= lo <= hi <= cells.len() {
        &&& r matches Some(sp)
        &&& (r matches Some(sp) ==> sp.wf() && sp@ == cells.subrange(lo, hi))
    } else {
        r is None
    }
}

/// The lower bound of fragment `k`: zero for the first fragment, else the
/// preceding offset.
pub open spec fn split_lo(offs: Seq<u16>, k: int) -> int {
    if k == 0 {
        0
    } else {
        offs[k - 1] as int
    }
}

/// The upper bound of fragment `k`: the run length for the last fragment,
/// else the offset at `k`.
pub open spec fn split_hi(offs: Seq<u16>, n: int, k: int) -> int {
    if k == offs.len() {
        n
    } else {
        offs[k] as int
    }
}

impl Span {
    /// The tracked length field.
    pub closed spec fn spec_len(&self) -> u16 {
        self.len
    }

    /// The tracked length agrees with the cell sequence.
    pub open spec fn wf(&self) -> bool {
        self.spec_len() == self@.len()
    }

    /// Returns the run length.
    pub fn len(&self) -> (r: u16)
        ensures
            r == self.spec_len(),
    {
        self.len
    }

    /// Returns `true` when the length is zero.
    pub fn is_empty(&self) -> (r: bool)
        ensures
            r == (self.spec_len() == 0),
    {
        self.len == 0
    }

    /// Get one cell by index.
    pub fn get(&self, idx: usize) -> (r: Option<&Cell>)
        requires
            self.wf(),
        ensures
            idx < self@.len() ==> (r matches Some(c) && *c == self@[idx as int]),
            idx >= self@.len() ==> r is None,
    {
        if idx < self.cells.len() {
            Some(&self.cells[idx])
        } else {
            None
        }
    }

    /// Get one cell mutably by index.
    pub fn get_mut(&mut self, idx: usize) -> (r: Option<&mut Cell>)
        requires
            old(self).wf(),
        ensures
            final(self).wf(),
            idx < old(self)@.len() ==> (r matches Some(c) && *c == old(self)@[idx as int]
                && final(self)@ == old(self)@.update(idx as int, *final(c))),
            idx >= old(self)@.len() ==> r is None && final(self)@ == old(self)@,
    {
        if idx < self.cells.len() {
            Some(&mut self.cells[idx])
        } else {
            None
        }
    }

    /// Replace the cell at `idx`, returning the previous cell; out-of-range
    /// indices leave the run unchanged.
    pub fn replace_at(&mut self, idx: usize, cell: Cell) -> (r: Option<Cell>)
        requires
            old(self).wf(),
        ensures
            final(self).wf(),
            idx < old(self)@.len() ==> r == Some(old(self)@[idx as int]) && final(self)@ == old(
                self,
            )@.update(idx as int, cell),
            idx >= old(self)@.len() ==> r is None && final(self)@ == old(self)@,
    {
        if idx < self.cells.len() {
            let prev = self.cells[idx];
            self.cells[idx] = cell;
            Some(prev)
        } else {
            None
        }
    }

    /// Push a cell to the back of the run.
    pub fn push_back(&mut self, cell: Cell)
        requires
            old(self).wf(),
            old(self).spec_len() < u16::MAX,
        ensures
            final(self).wf(),
            final(self)@ == old(self)@.push(cell),
    {
        self.len = self.len + 1;
        self.cells.push(cell);
    }

    /// Push a cell to the front of the run.
    pub fn push_front(&mut self, cell: Cell)
        requires
            old(self).wf(),
            old(self).spec_len() < u16::MAX,
        ensures
            final(self).wf(),
            final(self)@ == seq![cell] + old(self)@,
    {
        self.len = self.len + 1;
        self.cells.insert(0, cell);
        assert(final(self)@ =~= seq![cell] + old(self)@);
    }

    /// Pop a cell from the back of the run; popping an empty run is a no-op.
    pub fn pop_back(&mut self) -> (r: Option<Cell>)
        requires
            old(self).wf(),
        ensures
            final(self).wf(),
            old(self)@.len() == 0 ==> r is None && final(self)@ == old(self)@,
            old(self)@.len() > 0 ==> r == Some(old(self)@.last()) && final(self)@ == old(
                self,
            )@.drop_last(),
    {
        if self.len != 0 {
            self.len = self.len - 1;
        }
        self.cells.pop()
    }

    /// Pop a cell from the front of the run; popping an empty run is a no-op.
    pub fn pop_front(&mut self) -> (r: Option<Cell>)
        requires
            old(self).wf(),
        ensures
            final(self).wf(),
            old(self)@.len() == 0 ==> r is None && final(self)@ == old(self)@,
            old(self)@.len() > 0 ==> r == Some(old(self)@.first()) && final(self)@ == old(
                self,
            )@.subrange(1, old(self)@.len() as int),
    {
        if self.len != 0 {
            self.len = self.len - 1;
            Some(self.cells.remove(0))
        } else {
            None
        }
    }

    /// Drop `num` cells from the front; dropping more than the length leaves
    /// an empty run.
    pub fn truncate_front(&mut self, num: u16)
        requires
            old(self).wf(),
        ensures
            final(self).wf(),
            final(self)@ == old(self)@.skip(
                if num <= old(self).spec_len() {
                    num as int
                } else {
                    old(self)@.len() as int
                },
            ),
    {
        let k: u16 = if num <= self.len {
            num
        } else {
            self.len
        };
        let mut dropped: u16 = 0;
        assert(self@ =~= old(self)@.skip(0));
        while dropped < k
            invariant
                old(self).wf(),
                self.wf(),
                dropped <= k,
                k <= old(self).spec_len(),
                self@ == old(self)@.skip(dropped as int),
            decreases k - dropped,
        {
            self.cells.remove(0);
            self.len = self.len - 1;
            dropped = dropped + 1;
            assert(self@ =~= old(self)@.skip(dropped as int));
        }
    }

    /// Drop `num` cells from the back; dropping more than the length leaves
    /// an empty run.
    pub fn truncate_back(&mut self, num: u16)
        requires
            old(self).wf(),
        ensures
            final(self).wf(),
            final(self)@ == old(self)@.take(
                if num <= old(self).spec_len() {
                    old(self)@.len() - num
                } else {
                    0
                },
            ),
    {
        let new_len: u16 = if num <= self.len {
            self.len - num
        } else {
            0
        };
        self.len = new_len;
        self.cells.truncate(new_len as usize);
        assert(final(self)@ =~= old(self)@.take(new_len as int));
    }

    /// Transfer every cell of `source` to the end of `self`, draining
    /// `source`.
    pub fn append(&mut self, source: &mut Span)
        requires
            old(self).wf(),
            old(source).wf(),
            old(self)@.len() + old(source)@.len() <= u16::MAX,
        ensures
            final(self).wf(),
            final(source).wf(),
            final(self)@ == old(self)@ + old(source)@,
            final(source)@.len() == 0,
    {
        self.len = self.len + source.len;
        source.len = 0;
        self.cells.append(&mut source.cells);
    }

    /// Append every cell of `s` to the end of `self`.
    pub fn push_all(&mut self, s: Span)
        requires
            old(self).wf(),
            s.wf(),
            old(self)@.len() + s@.len() <= u16::MAX,
        ensures
            final(self).wf(),
            final(self)@ == old(self)@ + s@,
    {
        let mut source = s;
        self.append(&mut source);
    }

    /// Returns the cells as a vector.
    pub fn to_vec(&self) -> (r: Vec<Cell>)
        requires
            self.wf(),
        ensures
            r@ == self@,
    {
        let mut r: Vec<Cell> = Vec::new();
        let mut i: usize = 0;
        while i < self.cells.len()
            invariant
                i <= self.cells.len(),
                r@ == self@.take(i as int),
            decreases self.cells.len() - i,
        {
            r.push(self.cells[i]);
            i = i + 1;
            assert(r@ =~= self@.take(i as int));
        }
        assert(r@ =~= self@);
        r
    }

    /// Build a run from a vector of cells.
    pub fn from_vec(cells: Vec<Cell>) -> (r: Span)
        requires
            cells@.len() <= u16::MAX,
        ensures
            r.wf(),
            r@ == cells@,
    {
        let len = cells.len() as u16;
        Span { len, cells }
    }

    /// Create a run from a string, every cell carrying the given background
    /// style.
    pub fn new_with_bg(cells: &str, color: crate::cell::Style) -> (r: Self)
        requires
            cells@.len() <= u16::MAX,
        ensures
            r.wf(),
            r@.len() == cells@.len(),
            forall|i: int|
                0 <= i < cells@.len() ==> r@[i] == (Cell {
                    ch: cells@[i],
                    fg: crate::cell::Style::Reset,
                    bg: color,
                }),
    {
        let mut span = Span { len: 0, cells: Vec::new() };
        let n = cells.unicode_len();
        let mut i: usize = 0;
        while i < n
            invariant
                i <= n,
                n == cells@.len() <= u16::MAX,
                span.wf(),
                span@.len() == i,
                forall|m: int|
                    0 <= m < i ==> span@[m] == (Cell {
                        ch: cells@[m],
                        fg: crate::cell::Style::Reset,
                        bg: color,
                    }),
            decreases n - i,
        {
            let c = cells.get_char(i);
            span.push_back(Cell::new_bg(c, color));
            i = i + 1;
        }
        span
    }

    /// Create a run from a string, every cell carrying the given foreground
    /// style.
    pub fn new_with_fg(cells: &str, color: crate::cell::Style) -> (r: Self)
        requires
            cells@.len() <= u16::MAX,
        ensures
            r.wf(),
            r@.len() == cells@.len(),
            forall|i: int|
                0 <= i < cells@.len() ==> r@[i] == (Cell {
                    ch: cells@[i],
                    fg: color,
                    bg: crate::cell::Style::Reset,
                }),
    {
        let mut span = Span { len: 0, cells: Vec::new() };
        let n = cells.unicode_len();
        let mut i: usize = 0;
        while i < n
            invariant
                i <= n,
                n == cells@.len() <= u16::MAX,
                span.wf(),
                span@.len() == i,
                forall|m: int|
                    0 <= m < i ==> span@[m] == (Cell {
                        ch: cells@[m],
                        fg: color,
                        bg: crate::cell::Style::Reset,
                    }),
            decreases n - i,
        {
            let c = cells.get_char(i);
            span.push_back(Cell::new_fg(c, color));
            i = i + 1;
        }
        span
    }

    /// One fragment of a split: the cells in `[lo, hi)` when that slice lies
    /// inside the run, `None` otherwise.
    fn fragment(&self, lo: u16, hi: u16) -> (r: Option<Span>)
        requires
            self.wf(),
        ensures
            fragment_matches(r, self@, lo as int, hi as int),
    {
        if lo <= hi && (hi as usize) <= self.cells.len() {
            let mut cs: Vec<Cell> = Vec::new();
            let mut k: usize = lo as usize;
            while k < hi as usize
                invariant
                    lo as usize <= k <= hi as usize,
                    hi as usize <= self.cells.len(),
                    self.wf(),
                    cs@ == self@.subrange(lo as int, k as int),
                decreases hi as usize - k,
            {
                cs.push(self.cells[k]);
                k = k + 1;
                assert(cs@ =~= self@.subrange(lo as int, k as int));
            }
            Some(Span { len: hi - lo, cells: cs })
        } else {
            None
        }
    }

    /// Split the run at the given sorted column offsets. The result holds
    /// `indecies.len() + 1` fragments; fragment `k` covers the columns from
    /// the preceding offset (zero for the first) up to offset `k` (the run
    /// length for the last), and is `None` when that slice falls outside the
    /// run.
    pub fn split_by(&self, indecies: &[u16]) -> (r: Vec<Option<Span>>)
        requires
            self.wf(),
            sorted_offsets(indecies@),
        ensures
            r@.len() == indecies@.len() + 1,
            forall|k: int|
                0 <= k <= indecies@.len() ==> fragment_matches(
                    #[trigger] r@[k],
                    self@,
                    split_lo(indecies@, k),
                    split_hi(indecies@, self@.len() as int, k),
                ),
    {
        let mut res: Vec<Option<Span>> = Vec::new();
        let mut i: u16 = 0;
        let mut k: usize = 0;
        while k < indecies.len()
            invariant
                k <= indecies@.len(),
                res@.len() == k,
                i == split_lo(indecies@, k as int),
                sorted_offsets(indecies@),
                self.wf(),
                forall|m: int|
                    0 <= m < k ==> fragment_matches(
                        #[trigger] res@[m],
                        self@,
                        split_lo(indecies@, m),
                        split_hi(indecies@, self@.len() as int, m),
                    ),
            decreases indecies@.len() - k,
        {
            let j = indecies[k];
            res.push(self.fragment(i, j));
            i = j;
            k = k + 1;
        }
        res.push(self.fragment(i, self.len));
        res
    }
}

/// Splitting a run at in-range offsets and concatenating the fragments in
/// order reproduces the original cell sequence: the fragments of
/// [`Span::split_by`] at sorted offsets `[a, b]` are exactly these three
/// subranges.
pub proof fn lemma_split_round_trip(cells: Seq<Cell>, a: int, b: int)
    requires
        0 <= a <= b <= cells.len(),
    ensures
        cells.subrange(0, a) + cells.subrange(a, b) + cells.subrange(b, cells.len() as int)
            == cells,
{
    assert(cells.subrange(0, a) + cells.subrange(a, b) + cells.subrange(b, cells.len() as int)
        =~= cells);
}

impl Default for Span {
    /// The empty run.
    fn default() -> (r: Self)
        ensures
            r.wf(),
            r@.len() == 0,
    {
        Span { len: 0, cells: Vec::new() }
    }
}

impl Clone for Span {
    /// Cloning preserves the cell sequence.
    fn clone(&self) -> (r: Self)
        ensures
            r.spec_len() == self.spec_len(),
            r@ == self@,
    {
        let mut cs: Vec<Cell> = Vec::new();
        let mut i: usize = 0;
        while i < self.cells.len()
            invariant
                i <= self.cells.len(),
                cs@ == self@.take(i as int),
            decreases self.cells.len() - i,
        {
            cs.push(self.cells[i]);
            i = i + 1;
            assert(cs@ =~= self@.take(i as int));
        }
        assert(cs@ =~= self@);
        Span { len: self.len, cells: cs }
    }
}

impl PartialEq for Span {
    fn eq(&self, other: &Self) -> (r: bool) {
        if self.len != other.len || self.cells.len() != other.cells.len() {
            return false;
        }
        let mut i: usize = 0;
        while i < self.cells.len()
            invariant
                i <= self.cells.len(),
                self.cells.len() == other.cells.len(),
                self.spec_len() == other.spec_len(),
                forall|m: int| 0 <= m < i ==> self@[m] == other@[m],
            decreases self.cells.len() - i,
        {
            if self.cells[i] != other.cells[i] {
                return false;
            }
            i = i + 1;
        }
        assert(self@ =~= other@);
        true
    }
}

impl Eq for Span {

}

impl vstd::std_specs::cmp::PartialEqSpecImpl for Span {
    open spec fn obeys_eq_spec() -> bool {
        true
    }

    open spec fn eq_spec(&self, other: &Self) -> bool {
        self.spec_len() == other.spec_len() && self@ == other@
    }
}

impl From<&str> for Span {
    /// Build a run of default-styled cells from the characters of a string;
    /// characters beyond what a 16-bit length can hold are not taken.
    fn from(value: &str) -> (r: Self)
        ensures
            r.wf(),
            value@.len() <= u16::MAX ==> r@ == cells_of_str(value@),
            value@.len() > u16::MAX ==> r@ == cells_of_str(value@.take(u16::MAX as int)),
    {
        let mut span = Span { len: 0, cells: Vec::new() };
        let n = value.unicode_len();
        let mut i: usize = 0;
        assert(span@ =~= cells_of_str(value@.take(0)));
        while i < n && i < u16::MAX as usize
            invariant
                i <= n,
                n == value@.len(),
                i <= u16::MAX,
                span.wf(),
                span@ == cells_of_str(value@.take(i as int)),
            decreases n - i,
        {
            let c = value.get_char(i);
            span.push_back(Cell::new(c));
            i = i + 1;
            assert(span@ =~= cells_of_str(value@.take(i as int)));
        }
        proof {
            if value@.len() <= u16::MAX {
                assert(value@.take(n as int) =~= value@);
            }
        }
        span
    }
}

impl vstd::std_specs::convert::FromSpecImpl<&str> for Span {
    open spec fn obeys_from_spec() -> bool {
        false
    }

    open spec fn from_spec(v: &str) -> Self {
        arbitrary()
    }
}

impl From<String> for Span {
    /// Build a run of default-styled cells from the characters of a string;
    /// characters beyond what a 16-bit length can hold are not taken.
    fn from(value: String) -> (r: Self)
        ensures
            r.wf(),
            value@.len() <= u16::MAX ==> r@ == cells_of_str(value@),
            value@.len() > u16::MAX ==> r@ == cells_of_str(value@.take(u16::MAX as int)),
    {
        Span::from(value.as_str())
    }
}

impl vstd::std_specs::convert::FromSpecImpl<String> for Span {
    open spec fn obeys_from_spec() -> bool {
        false
    }

    open spec fn from_spec(v: String) -> Self {
        arbitrary()
    }
}

impl Annotate for Span {
    open spec fn spec_size(&self) -> (u16, u16) {
        (self.spec_len(), 1)
    }

    fn get_size(&self) -> (r: (u16, u16))
        ensures
            r == self.spec_size(),
    {
        (self.len, 1)
    }
}

} // verus!
