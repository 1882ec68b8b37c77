//! Windows and frame buffers: a window queues positioned views; flattening
//! composes them in insertion order into one dense frame buffer, and the
//! extractor run-length encodes a frame buffer into paint commands.

use std::collections::VecDeque;

use vstd::prelude::*;
use vstd::view::View as _;

use crate::annot::Annot;
use crate::annot::Annotate;
use crate::cell::Cell;
use crate::draw::DrawableSpan;
use crate::draw::PaintCmd;
use crate::view::View;
use crate::view::grid_idx;
use crate::view::lemma_grid_idx_bounds;
use crate::view::lemma_grid_idx_inj;

verus! {

/// The queued view `v` writes the window point `(x, y)` when flattened into
/// a `ww` by `wh` frame: its drawable width is clipped to the window's and
/// its own far column, its drawable height to the window's remaining rows
/// and its own height.
pub open spec fn view_writes(v: Annot<View>, ww: int, wh: int, x: int, y: int) -> bool {
    let vx = v.spec_x() as int;
    let vy = v.spec_y() as int;
    let vw = v.spec_inner().spec_size().0 as int;
    let vh = v.spec_inner().spec_size().1 as int;
    let lim_x = if ww <= vw {
        ww
    } else {
        vw
    };
    let rows = if wh - vy <= vh {
        wh - vy
    } else {
        vh
    };
    &&& vx <= x < lim_x
    &&& vy <= y < vy + rows
}

/// The cell the queued view `v` writes at the window point `(x, y)`: its
/// own cell in the same column, at the row relative to its offset.
pub open spec fn view_cell_at(v: Annot<View>, x: int, y: int) -> Option<Cell> {
    v.spec_inner()@[grid_idx(v.spec_inner().spec_size().0 as int, x, y - v.spec_y())]
}

/// The cell a queue of views shows at the window point `(x, y)`: views are
/// composited first-in first, so the last queued view writing the point
/// wins, holes included.
pub open spec fn window_at(views: Seq<Annot<View>>, ww: int, wh: int, x: int, y: int) -> Option<
    Cell,
>
    decreases views.len(),
{
    if views.len() == 0 {
        None
    } else if view_writes(views.last(), ww, wh, x, y) {
        view_cell_at(views.last(), x, y)
    } else {
        window_at(views.drop_last(), ww, wh, x, y)
    }
}

/// A window: declared screen bounds plus a first-in first-out queue of
/// positioned views awaiting flattening.
#[derive(Debug)]
pub struct Window {
    width: u16,
    height: u16,
    views: VecDeque<Annot<View>>,
}

impl Window {
    /// The queued views, first queued first.
    pub closed spec fn spec_views(&self) -> Seq<Annot<View>> {
        self.views@
    }

    /// Every queued view is well formed.
    pub open spec fn wf(&self) -> bool {
        forall|i: int|
            0 <= i < self.spec_views().len() ==> (#[trigger] self.spec_views()[i]).spec_inner().wf()
    }

    /// Create a new window with no queued views.
    pub fn new(width: u16, height: u16) -> (r: Self)
        ensures
            r.wf(),
            r.spec_size() == (width, height),
            r.spec_views().len() == 0,
    {
        Self { width, height, views: VecDeque::new() }
    }

    /// Create a new window with the given views already queued, in order.
    pub fn from_views(width: u16, height: u16, views: Vec<Annot<View>>) -> (r: Self)
        requires
            forall|i: int| 0 <= i < views@.len() ==> (#[trigger] views@[i]).spec_inner().wf(),
        ensures
            r.wf(),
            r.spec_size() == (width, height),
            r.spec_views() == views@,
    {
        let ghost vs = views@;
        let mut q: VecDeque<Annot<View>> = VecDeque::new();
        let mut src = views;
        while src.len() > 0
            invariant
                vs.len() == q@.len() + src@.len(),
                q@ == vs.take(q@.len() as int),
                src@ == vs.skip(q@.len() as int),
                forall|m: int| 0 <= m < vs.len() ==> (#[trigger] vs[m]).spec_inner().wf(),
            decreases src@.len(),
        {
            let ghost k = q@.len() as int;
            let v = src.remove(0);
            proof {
                assert(v == vs.skip(k)[0]);
                assert(v == vs[k]);
                assert(src@ =~= vs.skip(k + 1));
            }
            q.push_back(v);
            proof {
                assert(q@ =~= vs.take(k + 1));
            }
        }
        proof {
            assert(q@ =~= vs);
        }
        Self { width, height, views: q }
    }

    /// Change the declared bounds; queued views are untouched.
    pub fn resize(&mut self, width: u16, height: u16)
        requires
            old(self).wf(),
        ensures
            final(self).wf(),
            final(self).spec_size() == (width, height),
            final(self).spec_views() == old(self).spec_views(),
    {
        self.width = width;
        self.height = height;
        proof {
            assert forall|i: int|
                0 <= i < self.spec_views().len() implies (#[trigger] self.spec_views()[i]).spec_inner().wf() by {
                assert(self.spec_views()[i] == old(self).spec_views()[i]);
            }
        }
    }

    /// Queue a positioned view at the back.
    pub fn overlap(&mut self, view: Annot<View>)
        requires
            old(self).wf(),
            view.spec_inner().wf(),
        ensures
            final(self).wf(),
            final(self).spec_size() == old(self).spec_size(),
            final(self).spec_views() == old(self).spec_views().push(view),
    {
        self.views.push_back(view);
        proof {
            assert forall|i: int|
                0 <= i < self.spec_views().len() implies (#[trigger] self.spec_views()[i]).spec_inner().wf() by {
                if i < old(self).spec_views().len() {
                    assert(self.spec_views()[i] == old(self).spec_views()[i]);
                } else {
                    assert(self.spec_views()[i] == view);
                }
            }
        }
    }
}

impl Annotate for Window {
    closed spec fn spec_size(&self) -> (u16, u16) {
        (self.width, self.height)
    }

    fn get_size(&self) -> (r: (u16, u16))
        ensures
            r == self.spec_size(),
    {
        (self.width, self.height)
    }
}

/// A frame buffer: the dense grid produced by flattening a window, always
/// `window width * window height` cells.
#[derive(Debug)]
pub struct VTerm {
    width: u16,
    height: u16,
    cells: Vec<Option<Cell>>,
}

impl vstd::view::View for VTerm {
    type V = Seq<Option<Cell>>;

    closed spec fn view(&self) -> Seq<Option<Cell>> {
        self.cells@
    }
}

impl VTerm {
    /// The buffer holds exactly `width * height` cells.
    pub open spec fn wf(&self) -> bool {
        self@.len() == self.spec_size().0 * self.spec_size().1
    }

    /// Create a frame buffer from its dimensions and row-major cells.
    pub fn new(width: u16, height: u16, cells: Vec<Option<Cell>>) -> (r: Self)
        requires
            cells@.len() == width * height,
        ensures
            r.wf(),
            r@ == cells@,
            r.spec_size() == (width, height),
    {
        Self { width, height, cells }
    }

    /// Returns the number of cells in the buffer.
    pub fn len(&self) -> (r: usize)
        ensures
            r == self@.len(),
    {
        self.cells.len()
    }

    /// Returns `true` when the buffer holds no cells.
    pub fn is_empty(&self) -> (r: bool)
        ensures
            r == (self@.len() == 0),
    {
        self.cells.is_empty()
    }

    /// Returns a copy of the cells in row-major order.
    pub fn to_vec(&self) -> (r: Vec<Option<Cell>>)
        ensures
            r@ == self@,
    {
        let mut r: Vec<Option<Cell>> = Vec::new();
        let mut i: usize = 0;
        while i < self.cells.len()
            invariant
                i <= self.cells.len(),
                r@ == self@.take(i as int),
            decreases self.cells.len() - i,
        {
            r.push(self.cells[i]);
            i = i + 1;
            assert(r@ =~= self@.take(i as int));
        }
        assert(r@ =~= self@);
        r
    }
}

impl Annotate for VTerm {
    closed spec fn spec_size(&self) -> (u16, u16) {
        (self.width, self.height)
    }

    fn get_size(&self) -> (r: (u16, u16))
        ensures
            r == self.spec_size(),
    {
        (self.width, self.height)
    }
}

/// Flatten an annotated window into an annotated frame buffer: queued views
/// are composited in insertion order, each copied unconditionally into its
/// clipped rectangle, so later views win and can punch holes.
pub fn create_virtual_terminal(window: Annot<Window>) -> (r: Annot<VTerm>)
    requires
        window.spec_inner().wf(),
    ensures
        r.spec_x() == window.spec_x(),
        r.spec_y() == window.spec_y(),
        r.spec_inner().spec_size() == window.spec_inner().spec_size(),
        r.spec_inner().wf(),
        forall|x: int, y: int|
            0 <= x < window.spec_inner().spec_size().0 && 0 <= y
                < window.spec_inner().spec_size().1 ==> #[trigger] r.spec_inner()@[grid_idx(
                window.spec_inner().spec_size().0 as int,
                x,
                y,
            )] == window_at(
                window.spec_inner().spec_views(),
                window.spec_inner().spec_size().0 as int,
                window.spec_inner().spec_size().1 as int,
                x,
                y,
            ),
{
    let root = window.base_pos();
    let ghost vs = window.spec_inner().spec_views();
    let mut window = window.into_inner();
    let window_width = window.width;
    let window_height = window.height;
    let ghost gw = window_width as int;
    let ghost gh = window_height as int;
    proof {
        assert((window_width as int) * (window_height as int) <= 0xfffe_0001int)
            by (nonlinear_arith)
            requires
                window_width <= 0xffff,
                window_height <= 0xffff,
        ;
        assert(usize::MAX >= 0xffff_ffffnat);
    }
    let total = (window_width as usize) * (window_height as usize);
    let mut holder: Vec<Option<Cell>> = vec![None; total];
    proof {
        assert(vs.take(0).len() == 0);
        assert forall|x: int, y: int|
            0 <= x < gw && 0 <= y < gh implies #[trigger] holder@[grid_idx(gw, x, y)] == window_at(
            vs.take(0),
            gw,
            gh,
            x,
            y,
        ) by {
            lemma_grid_idx_bounds(gw, gh, x, y);
        }
    }
    while window.views.len() > 0
        invariant
            gw == window_width as int,
            gh == window_height as int,
            total == gw * gh,
            holder@.len() == total,
            window.spec_views().len() <= vs.len(),
            window.spec_views() == vs.skip(vs.len() - window.spec_views().len()),
            forall|i: int| 0 <= i < vs.len() ==> (#[trigger] vs[i]).spec_inner().wf(),
            forall|x: int, y: int|
                0 <= x < gw && 0 <= y < gh ==> #[trigger] holder@[grid_idx(gw, x, y)] == window_at(
                    vs.take(vs.len() - window.spec_views().len()),
                    gw,
                    gh,
                    x,
                    y,
                ),
        decreases window.spec_views().len(),
    {
        let ghost k = vs.len() - window.spec_views().len();
        let view = window.views.pop_front().unwrap();
        proof {
            assert(view == vs.skip(k)[0]);
            assert(view == vs[k]);
            assert(window.spec_views() =~= vs.skip(k + 1));
        }
        let (view_offset_x, view_offset_y) = view.base_pos();
        let (vw, vh) = view.inner().get_size();
        let lim_x = if window_width <= vw {
            window_width
        } else {
            vw
        };
        let drawable_width: u16 = if lim_x > view_offset_x {
            lim_x - view_offset_x
        } else {
            0
        };
        let avail_rows: u16 = if window_height > view_offset_y {
            window_height - view_offset_y
        } else {
            0
        };
        let drawable_height: u16 = if avail_rows <= vh {
            avail_rows
        } else {
            vh
        };
        if drawable_width > 0 && drawable_height > 0 {
            let mut rel_y: u16 = 0;
            while rel_y < drawable_height
                invariant
                    gw == window_width as int,
                    gh == window_height as int,
                    total == gw * gh,
                    holder@.len() == total,
                    0 <= k < vs.len(),
                    view == vs[k],
                    view_offset_x == view.spec_x(),
                    view_offset_y == view.spec_y(),
                    vw == view.spec_inner().spec_size().0,
                    vh == view.spec_inner().spec_size().1,
                    view.spec_inner().wf(),
                    lim_x == (if gw <= vw {
                        gw
                    } else {
                        vw as int
                    }),
                    drawable_width == (if lim_x > view_offset_x {
                        lim_x - view_offset_x
                    } else {
                        0
                    }),
                    drawable_height == (if (gh - view_offset_y) <= vh {
                        gh - view_offset_y
                    } else {
                        vh as int
                    }) || (gh <= view_offset_y && drawable_height == 0),
                    drawable_width > 0,
                    drawable_height > 0,
                    view_offset_y + drawable_height <= gh,
                    view_offset_x + drawable_width <= gw,
                    view_offset_x + drawable_width <= vw,
                    drawable_height <= vh,
                    rel_y <= drawable_height,
                    forall|x: int, y: int|
                        0 <= x < gw && 0 <= y < gh ==> #[trigger] holder@[grid_idx(gw, x, y)] == (
                        if view_offset_x <= x < view_offset_x + drawable_width && view_offset_y <= y
                            < view_offset_y + rel_y {
                            view_cell_at(view, x, y)
                        } else {
                            window_at(vs.take(k), gw, gh, x, y)
                        }),
                decreases drawable_height - rel_y,
            {
                let line = view.inner().get_line(rel_y);
                proof {
                    assert(0 <= rel_y * (vw as int) && rel_y * (vw as int) <= (rel_y + 1) * (
                    vw as int) && (rel_y + 1) * (vw as int) <= (vw as int) * (vh as int) && ((rel_y
                        + 1) * (vw as int) - rel_y * (vw as int)) == vw) by (nonlinear_arith)
                        requires
                            0 <= rel_y,
                            rel_y < vh,
                            vw >= 0,
                    ;
                    assert(view.spec_inner()@.len() == (vw as int) * (vh as int));
                    assert(line@.len() == vw);
                }
                let mut c: u16 = 0;
                while c < drawable_width
                    invariant
                        gw == window_width as int,
                        gh == window_height as int,
                        total == gw * gh,
                        holder@.len() == total,
                        0 <= k < vs.len(),
                        view == vs[k],
                        view_offset_x == view.spec_x(),
                        view_offset_y == view.spec_y(),
                        vw == view.spec_inner().spec_size().0,
                        vh == view.spec_inner().spec_size().1,
                        view.spec_inner().wf(),
                        drawable_width > 0,
                        drawable_height > 0,
                        view_offset_y + drawable_height <= gh,
                        view_offset_x + drawable_width <= gw,
                        view_offset_x + drawable_width <= vw,
                        drawable_height <= vh,
                        rel_y < drawable_height,
                        line@ == view.spec_inner()@.subrange(
                            rel_y * vw,
                            (rel_y + 1) * vw,
                        ),
                        line@.len() == vw,
                        (rel_y + 1) * (vw as int) - rel_y * (vw as int) == vw,
                        0 <= rel_y * (vw as int),
                        (rel_y + 1) * (vw as int) <= view.spec_inner()@.len(),
                        c <= drawable_width,
                        forall|x: int, y: int|
                            0 <= x < gw && 0 <= y < gh ==> #[trigger] holder@[grid_idx(gw, x, y)]
                                == (if (view_offset_x <= x < view_offset_x + drawable_width
                                && view_offset_y <= y < view_offset_y + rel_y) || (y
                                == view_offset_y + rel_y && view_offset_x <= x < view_offset_x
                                + c) {
                                view_cell_at(view, x, y)
                            } else {
                                window_at(vs.take(k), gw, gh, x, y)
                            }),
                    decreases drawable_width - c,
                {
                    let ax = view_offset_x + c;
                    let ay = view_offset_y + rel_y;
                    proof {
                        lemma_grid_idx_bounds(gw, gh, ax as int, ay as int);
                        assert((ay as int) * gw <= (gh - 1) * gw <= gw * gh - gw)
                            by (nonlinear_arith)
                            requires
                                0 <= ay < gh,
                                gw >= 0,
                        ;
                        assert(grid_idx(vw as int, ax as int, rel_y as int) == rel_y * vw + ax);
                        assert(0 <= rel_y * vw) by (nonlinear_arith)
                            requires
                                rel_y >= 0,
                                vw >= 0,
                        ;
                    }
                    let idx = (ay as usize) * (window_width as usize) + (ax as usize);
                    let src = line[ax as usize];
                    let ghost oldholder = holder@;
                    holder[idx] = src;
                    c = c + 1;
                    proof {
                        assert(src == line@[ax as int]);
                        assert(view.spec_inner()@.subrange(
                            rel_y * (vw as int),
                            (rel_y + 1) * (vw as int),
                        )[ax as int] == view.spec_inner()@[rel_y * (vw as int) + ax]);
                        assert(src == view.spec_inner()@[rel_y * (vw as int) + ax]);
                        assert(src == view.spec_inner()@[grid_idx(vw as int, ax as int, rel_y as int)]);
                        assert(src == view_cell_at(view, ax as int, ay as int));
                        assert forall|x: int, y: int|
                            0 <= x < gw && 0 <= y < gh implies #[trigger] holder@[grid_idx(
                            gw,
                            x,
                            y,
                        )] == (if (view_offset_x <= x < view_offset_x + drawable_width
                            && view_offset_y <= y < view_offset_y + rel_y) || (y == view_offset_y
                            + rel_y && view_offset_x <= x < view_offset_x + c) {
                            view_cell_at(view, x, y)
                        } else {
                            window_at(vs.take(k), gw, gh, x, y)
                        }) by {
                            lemma_grid_idx_inj(gw, x, y, ax as int, ay as int);
                            lemma_grid_idx_bounds(gw, gh, x, y);
                        }
                    }
                }
                rel_y = rel_y + 1;
            }
            proof {
                assert(vs.take(k + 1).drop_last() =~= vs.take(k));
                assert(vs.take(k + 1).last() == vs[k]);
                assert forall|x: int, y: int|
                    0 <= x < gw && 0 <= y < gh implies #[trigger] holder@[grid_idx(gw, x, y)]
                    == window_at(vs.take(k + 1), gw, gh, x, y) by {
                    assert(window_at(vs.take(k + 1), gw, gh, x, y) == (if view_writes(
                        vs[k],
                        gw,
                        gh,
                        x,
                        y,
                    ) {
                        view_cell_at(vs[k], x, y)
                    } else {
                        window_at(vs.take(k), gw, gh, x, y)
                    }));
                    assert(view_writes(vs[k], gw, gh, x, y) <==> (view_offset_x <= x
                        < view_offset_x + drawable_width && view_offset_y <= y < view_offset_y
                        + drawable_height));
                }
            }
        } else {
            proof {
                assert(vs.take(k + 1).drop_last() =~= vs.take(k));
                assert(vs.take(k + 1).last() == vs[k]);
                assert forall|x: int, y: int|
                    0 <= x < gw && 0 <= y < gh implies #[trigger] holder@[grid_idx(gw, x, y)]
                    == window_at(vs.take(k + 1), gw, gh, x, y) by {
                    assert(window_at(vs.take(k + 1), gw, gh, x, y) == (if view_writes(
                        vs[k],
                        gw,
                        gh,
                        x,
                        y,
                    ) {
                        view_cell_at(vs[k], x, y)
                    } else {
                        window_at(vs.take(k), gw, gh, x, y)
                    }));
                    assert(!view_writes(vs[k], gw, gh, x, y));
                }
            }
        }
    }
    proof {
        assert(vs.take(vs.len() as int) =~= vs);
    }
    VTerm::new(window_width, window_height, holder).annotate(root)
}

/// The unbroken run of non-empty cells starting at `i` in one row.
pub open spec fn run_cells(row: Seq<Option<Cell>>, i: int) -> Seq<Cell>
    decreases row.len() - i,
{
    if 0 <= i < row.len() {
        match row[i] {
            Option::Some(c) => seq![c] + run_cells(row, i + 1),
            Option::None => Seq::empty(),
        }
    } else {
        Seq::empty()
    }
}

/// A paint command starts at `i`: the cell is non-empty and sits at the row
/// edge or after an empty cell.
pub open spec fn cmd_starts(row: Seq<Option<Cell>>, i: int) -> bool {
    &&& 0 <= i < row.len()
    &&& row[i] is Some
    &&& (i == 0 || row[i - 1] is None)
}

/// The paint commands of one row from position `i` on: one maximal run of
/// non-empty cells per command, at absolute positions offset by `bx` on the
/// absolute row `y`.
pub open spec fn row_cmds(row: Seq<Option<Cell>>, i: int, bx: int, y: int) -> Seq<PaintCmd>
    decreases row.len() - i,
{
    if 0 <= i < row.len() {
        if cmd_starts(row, i) {
            seq![
                PaintCmd { x: (bx + i) as u16, y: y as u16, cells: run_cells(row, i) },
            ] + row_cmds(row, i + 1, bx, y)
        } else {
            row_cmds(row, i + 1, bx, y)
        }
    } else {
        Seq::empty()
    }
}

/// The paint commands of the first `rows` rows of a flat `w`-wide grid
/// whose top-left corner sits at the absolute position `(bx, by)`.
pub open spec fn grid_cmds(cells: Seq<Option<Cell>>, w: int, rows: int, bx: int, by: int) -> Seq<
    PaintCmd,
>
    decreases rows,
{
    if rows <= 0 {
        Seq::empty()
    } else {
        grid_cmds(cells, w, rows - 1, bx, by) + row_cmds(
            cells.subrange((rows - 1) * w, rows * w),
            0,
            bx,
            by + rows - 1,
        )
    }
}

/// The abstract values of a sequence of drawing commands.
pub open spec fn cmds_of(ds: Seq<DrawableSpan>) -> Seq<PaintCmd> {
    ds.map_values(|d: DrawableSpan| d@)
}

/// A stretch with no command start contributes no command.
pub proof fn lemma_row_cmds_no_starts(row: Seq<Option<Cell>>, a: int, b: int, bx: int, y: int)
    requires
        0 <= a <= b <= row.len(),
        forall|s: int| a <= s < b ==> !cmd_starts(row, s),
    ensures
        row_cmds(row, a, bx, y) == row_cmds(row, b, bx, y),
    decreases b - a,
{
    if a < b {
        assert(!cmd_starts(row, a));
        lemma_row_cmds_no_starts(row, a + 1, b, bx, y);
    }
}

/// The run starting at `c` holds exactly the cells up to the next empty
/// cell or the row edge at `rend`.
pub proof fn lemma_run_cells_exact(row: Seq<Option<Cell>>, c: int, rend: int)
    requires
        0 <= c <= rend <= row.len(),
        forall|j: int| c <= j < rend ==> (#[trigger] row[j]) is Some,
        rend == row.len() || row[rend] is None,
    ensures
        run_cells(row, c).len() == rend - c,
        forall|k: int| 0 <= k < rend - c ==> row[c + k] == Some(#[trigger] run_cells(row, c)[k]),
    decreases rend - c,
{
    if c < rend {
        assert(row[c] is Some);
        lemma_run_cells_exact(row, c + 1, rend);
        assert forall|k: int|
            0 <= k < rend - c implies row[c + k] == Some(#[trigger] run_cells(row, c)[k]) by {
            if k > 0 {
                assert(row[(c + 1) + (k - 1)] == Some(run_cells(row, c + 1)[k - 1]));
            }
        }
    }
}

/// Run-length encode an annotated frame buffer into paint commands: scan
/// row by row, emit one command per maximal run of non-empty cells, and
/// never emit empty cells.
pub fn convert_to_spans(vterm: Annot<VTerm>) -> (r: Vec<DrawableSpan>)
    requires
        vterm.spec_inner().wf(),
        vterm.spec_x() + vterm.spec_inner().spec_size().0 <= u16::MAX + 1,
        vterm.spec_y() + vterm.spec_inner().spec_size().1 <= u16::MAX + 1,
    ensures
        cmds_of(r@) == grid_cmds(
            vterm.spec_inner()@,
            vterm.spec_inner().spec_size().0 as int,
            vterm.spec_inner().spec_size().1 as int,
            vterm.spec_x() as int,
            vterm.spec_y() as int,
        ),
{
    let (rel_base_x, rel_base_y) = vterm.base_pos();
    let ghost bx = vterm.spec_x() as int;
    let ghost by = vterm.spec_y() as int;
    let term = vterm.into_inner();
    let w = term.width;
    let h = term.height;
    let ghost gw = w as int;
    let ghost gh = h as int;
    let ghost flat = term@;
    let mut res: Vec<DrawableSpan> = Vec::new();
    proof {
        assert(cmds_of(res@) =~= grid_cmds(flat, gw, 0, bx, by));
    }
    let mut y: u16 = 0;
    while y < h
        invariant
            gw == w as int,
            gh == h as int,
            bx + gw <= u16::MAX + 1,
            by + gh <= u16::MAX + 1,
            bx == rel_base_x as int,
            by == rel_base_y as int,
            flat == term@,
            flat.len() == gw * gh,
            y <= h,
            cmds_of(res@) == grid_cmds(flat, gw, y as int, bx, by),
        decreases gh - y,
    {
        let ghost yg = y as int;
        let ghost row = flat.subrange(yg * gw, (yg + 1) * gw);
        proof {
            assert(0 <= yg * gw && yg * gw <= (yg + 1) * gw && (yg + 1) * gw <= gw * gh && ((yg
                + 1) * gw - yg * gw) == gw) by (nonlinear_arith)
                requires
                    0 <= yg < gh,
                    gw >= 0,
            ;
            assert(row.len() == gw);
            assert(gw * gh <= 0xfffe_0001int) by (nonlinear_arith)
                requires
                    0 <= gw <= 0xffff,
                    0 <= gh <= 0xffff,
            ;
            assert(usize::MAX >= 0xffff_ffffnat);
        }
        let rowbase = (y as usize) * (w as usize);
        let ghost res_row0 = res@;
        let mut c: usize = 0;
        proof {
            assert(row_cmds(row, 0, bx, by + yg) == row_cmds(row, 0, bx, by + yg));
        }
        while c < w as usize
            invariant
                gw == w as int,
                gh == h as int,
                bx + gw <= u16::MAX + 1,
                by + gh <= u16::MAX + 1,
                bx == rel_base_x as int,
                by == rel_base_y as int,
                flat == term@,
                flat.len() == gw * gh,
                0 <= yg < gh,
                y as int == yg,
                row == flat.subrange(yg * gw, (yg + 1) * gw),
                row.len() == gw,
                rowbase == yg * gw,
                0 <= yg * gw,
                (yg + 1) * gw <= gw * gh,
                (yg + 1) * gw - yg * gw == gw,
                gw * gh <= 0xfffe_0001int,
                usize::MAX >= 0xffff_ffffnat,
                c <= w as usize,
                c as int == 0 || c as int == gw || row[c as int - 1] is None,
                cmds_of(res@) + row_cmds(row, c as int, bx, by + yg) == grid_cmds(
                    flat,
                    gw,
                    yg,
                    bx,
                    by,
                ) + row_cmds(row, 0, bx, by + yg),
            decreases gw - c,
        {
            let ghost c0 = c as int;
            proof {
                assert(row[c0] == flat[yg * gw + c0]);
            }
            if term.cells[rowbase + c].is_none() {
                proof {
                    assert(!cmd_starts(row, c0));
                    assert(row_cmds(row, c0, bx, by + yg) == row_cmds(row, c0 + 1, bx, by + yg));
                }
                c = c + 1;
            } else {
                proof {
                    assert(cmd_starts(row, c0));
                }
                let start = c;
                let mut rend = c;
                while rend < w as usize && term.cells[rowbase + rend].is_some()
                    invariant
                        flat == term@,
                        flat.len() == gw * gh,
                        row == flat.subrange(yg * gw, (yg + 1) * gw),
                        row.len() == gw,
                        rowbase == yg * gw,
                        0 <= yg * gw,
                        (yg + 1) * gw <= gw * gh,
                        (yg + 1) * gw - yg * gw == gw,
                        gw * gh <= 0xfffe_0001int,
                        usize::MAX >= 0xffff_ffffnat,
                        gw == w as int,
                        start <= rend <= w as usize,
                        forall|j: int| start <= j < rend ==> (#[trigger] row[j]) is Some,
                    decreases gw - rend,
                {
                    proof {
                        assert(row[rend as int] == flat[yg * gw + rend]);
                    }
                    rend = rend + 1;
                }
                proof {
                    assert(rend < w as usize ==> row[rend as int] == flat[yg * gw + rend]);
                    assert(rend as int == gw || row[rend as int] is None);
                }
                let mut buf: Vec<Cell> = Vec::new();
                let mut k = start;
                while k < rend
                    invariant
                        flat == term@,
                        flat.len() == gw * gh,
                        row == flat.subrange(yg * gw, (yg + 1) * gw),
                        row.len() == gw,
                        rowbase == yg * gw,
                        0 <= yg * gw,
                        (yg + 1) * gw <= gw * gh,
                        (yg + 1) * gw - yg * gw == gw,
                        gw * gh <= 0xfffe_0001int,
                        usize::MAX >= 0xffff_ffffnat,
                        gw == w as int,
                        start <= k <= rend <= w as usize,
                        forall|j: int| start <= j < rend ==> (#[trigger] row[j]) is Some,
                        buf@.len() == k - start,
                        forall|m: int|
                            0 <= m < k - start ==> row[start + m] == Some(#[trigger] buf@[m]),
                    decreases rend - k,
                {
                    proof {
                        assert(row[k as int] == flat[yg * gw + k]);
                        assert(row[k as int] is Some);
                    }
                    buf.push(term.cells[rowbase + k].unwrap());
                    k = k + 1;
                }
                let x_cmd = rel_base_x + (start as u16);
                let y_cmd = rel_base_y + y;
                let ghost dcmd = PaintCmd { x: x_cmd, y: y_cmd, cells: buf@ };
                let ghost res_before = res@;
                res.push(DrawableSpan::new((x_cmd, y_cmd), buf));
                proof {
                    lemma_run_cells_exact(row, start as int, rend as int);
                    assert(buf@ =~= run_cells(row, start as int));
                    assert(cmds_of(res@) =~= cmds_of(res_before).push(dcmd));
                    assert(row_cmds(row, start as int, bx, by + yg) == seq![
                        PaintCmd {
                            x: (bx + start) as u16,
                            y: (by + yg) as u16,
                            cells: run_cells(row, start as int),
                        },
                    ] + row_cmds(row, start as int + 1, bx, by + yg));
                    assert(dcmd == (PaintCmd {
                        x: (bx + start) as u16,
                        y: (by + yg) as u16,
                        cells: run_cells(row, start as int),
                    }));
                    assert forall|s: int| start + 1 <= s < rend implies !cmd_starts(row, s) by {
                        assert(row[s - 1] is Some);
                    }
                    lemma_row_cmds_no_starts(row, start as int + 1, rend as int, bx, by + yg);
                    assert(cmds_of(res_before) + (seq![dcmd] + row_cmds(
                        row,
                        rend as int,
                        bx,
                        by + yg,
                    )) =~= cmds_of(res@) + row_cmds(row, rend as int, bx, by + yg));
                }
                if rend < w as usize {
                    proof {
                        assert(row[rend as int] is None);
                        assert(!cmd_starts(row, rend as int));
                        assert(row_cmds(row, rend as int, bx, by + yg) == row_cmds(
                            row,
                            rend as int + 1,
                            bx,
                            by + yg,
                        ));
                    }
                    c = rend + 1;
                } else {
                    c = rend;
                }
            }
        }
        proof {
            assert(row_cmds(row, gw, bx, by + yg) == Seq::<PaintCmd>::empty());
            assert(cmds_of(res@) =~= grid_cmds(flat, gw, yg, bx, by) + row_cmds(
                row,
                0,
                bx,
                by + yg,
            ));
            assert(grid_cmds(flat, gw, yg + 1, bx, by) == grid_cmds(flat, gw, yg, bx, by)
                + row_cmds(flat.subrange(yg * gw, (yg + 1) * gw), 0, bx, by + yg));
        }
        y = y + 1;
    }
    res
}

} // verus!
