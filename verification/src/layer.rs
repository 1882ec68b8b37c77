//! Layers: unordered collections of non-overlapping placed runs on one
//! z-plane, with the conflict-resolution algorithms that keep them
//! non-overlapping.

use vstd::prelude::*;
use vstd::std_specs::cmp::PartialEqSpec;

use crate::annot::Annot;
use crate::annot::Annotate;
use crate::annot::conflicts;
use crate::annot::spec_fits;
use crate::cell::Cell;
use crate::span::Span;

verus! {

/// The placed run `s` covers the grid point `(x, y)`.
pub open spec fn span_covers(s: Annot<Span>, x: int, y: int) -> bool {
    &&& s.spec_y() == y
    &&& s.spec_x() <= x < s.spec_x() + s.spec_inner()@.len()
}

/// The cell the placed run `s` shows at column `x` of its row.
pub open spec fn span_cell(s: Annot<Span>, x: int) -> Cell {
    s.spec_inner()@[x - s.spec_x()]
}

/// A placed run is well formed: its tracked length agrees with its cells
/// and its far corner is representable.
pub open spec fn pspan_wf(s: Annot<Span>) -> bool {
    &&& s.spec_inner().wf()
    &&& spec_fits(s)
}

/// Some run of the collection covers `(x, y)`.
pub open spec fn covered(spans: Seq<Annot<Span>>, x: int, y: int) -> bool {
    exists|i: int| 0 <= i < spans.len() && span_covers(#[trigger] spans[i], x, y)
}

/// An index of a run covering `(x, y)`; under [`spans_wf`] it is unique.
pub open spec fn cover_index(spans: Seq<Annot<Span>>, x: int, y: int) -> int {
    choose|i: int| 0 <= i < spans.len() && span_covers(#[trigger] spans[i], x, y)
}

/// The cell a collection of placed runs shows at `(x, y)`: the covering
/// run's cell, or nothing. Under [`spans_wf`] at most one run covers any
/// point, so the value does not depend on the choice of index.
pub open spec fn cell_at(spans: Seq<Annot<Span>>, x: int, y: int) -> Option<Cell> {
    if covered(spans, x, y) {
        Some(span_cell(spans[cover_index(spans, x, y)], x))
    } else {
        None
    }
}

/// Every run is well formed and non-empty, and no two runs conflict: the
/// central invariant of a layer.
pub open spec fn spans_wf(s: Seq<Annot<Span>>) -> bool {
    &&& forall|i: int|
        0 <= i < s.len() ==> pspan_wf(#[trigger] s[i]) && s[i].spec_inner().spec_len() > 0
    &&& forall|i: int, j: int|
        0 <= i < s.len() && 0 <= j < s.len() && i != j ==> !conflicts(#[trigger] s[i], #[trigger] s[j])
}

/// The placed run lies inside a `w` by `h` bounding box.
pub open spec fn span_in_bounds(s: Annot<Span>, w: u16, h: u16) -> bool {
    &&& s.spec_x() + s.spec_inner().spec_len() <= w
    &&& s.spec_y() + 1 <= h
}

/// The total number of cells held by a collection of placed runs.
pub open spec fn total_cells(s: Seq<Annot<Span>>) -> nat
    decreases s.len(),
{
    if s.len() == 0 {
        0
    } else {
        s[0].spec_inner()@.len() + total_cells(s.skip(1))
    }
}

/// The cell total of a concatenation is the sum of the totals.
pub proof fn lemma_total_cells_concat(a: Seq<Annot<Span>>, b: Seq<Annot<Span>>)
    ensures
        total_cells(a + b) == total_cells(a) + total_cells(b),
    decreases a.len(),
{
    if a.len() == 0 {
        assert(a + b =~= b);
    } else {
        assert((a + b)[0] == a[0]);
        assert((a + b).skip(1) =~= a.skip(1) + b);
        lemma_total_cells_concat(a.skip(1), b);
    }
}

/// The cell totals of collections of at most two runs.
pub proof fn lemma_total_cells_upto2(s: Seq<Annot<Span>>)
    requires
        s.len() <= 2,
    ensures
        s.len() == 0 ==> total_cells(s) == 0,
        s.len() == 1 ==> total_cells(s) == s[0].spec_inner()@.len(),
        s.len() == 2 ==> total_cells(s) == s[0].spec_inner()@.len() + s[1].spec_inner()@.len(),
{
    if s.len() == 1 {
        assert(s.skip(1) =~= Seq::<Annot<Span>>::empty());
        assert(total_cells(s.skip(1)) == 0);
        assert(total_cells(s) == s[0].spec_inner()@.len() + total_cells(s.skip(1)));
    }
    if s.len() == 2 {
        let t = s.skip(1);
        assert(t[0] == s[1]);
        assert(t.skip(1) =~= Seq::<Annot<Span>>::empty());
        assert(total_cells(t.skip(1)) == 0);
        assert(total_cells(t) == t[0].spec_inner()@.len() + total_cells(t.skip(1)));
        assert(total_cells(s) == s[0].spec_inner()@.len() + total_cells(t));
    }
}

/// Dropping the first element of the second part keeps the layer invariant
/// of a concatenation.
pub proof fn lemma_spans_wf_drop_mid(a: Seq<Annot<Span>>, b: Seq<Annot<Span>>)
    requires
        spans_wf(a + b),
        b.len() > 0,
    ensures
        spans_wf(a + b.skip(1)),
{
    let w = a + b;
    let n = a + b.skip(1);
    assert forall|i: int|
        0 <= i < n.len() implies pspan_wf(#[trigger] n[i]) && n[i].spec_inner().spec_len() > 0 by {
        if i < a.len() {
            assert(n[i] == w[i]);
        } else {
            assert(n[i] == w[i + 1]);
        }
    }
    assert forall|i: int, j: int|
        0 <= i < n.len() && 0 <= j < n.len() && i != j implies !conflicts(
        #[trigger] n[i],
        #[trigger] n[j],
    ) by {
        let i2: int = if i < a.len() {
            i
        } else {
            i + 1
        };
        let j2: int = if j < a.len() {
            j
        } else {
            j + 1
        };
        assert(n[i] == w[i2]);
        assert(n[j] == w[j2]);
    }
}

/// The run `f` is a clipped piece of `sp`: same row, columns inside `sp`'s,
/// and the same cell wherever it covers.
pub open spec fn clipped_from(f: Annot<Span>, sp: Annot<Span>) -> bool {
    &&& f.spec_y() == sp.spec_y()
    &&& f.spec_x() >= sp.spec_x()
    &&& f.spec_x() + f.spec_inner()@.len() <= sp.spec_x() + sp.spec_inner()@.len()
    &&& forall|x: int|
        #[trigger] span_covers(f, x, sp.spec_y() as int) ==> span_cell(f, x) == span_cell(sp, x)
}

/// The observable shape of a placed run: its base position and its cells.
#[verifier::ext_equal]
pub struct RunShape {
    /// The base column.
    pub x: u16,
    /// The base row.
    pub y: u16,
    /// The run's cells, left to right.
    pub cells: Seq<Cell>,
}

/// The shape of one placed run.
pub open spec fn shape(s: Annot<Span>) -> RunShape {
    RunShape { x: s.spec_x(), y: s.spec_y(), cells: s.spec_inner()@ }
}

/// The shapes of a collection of placed runs, in storage order.
pub open spec fn shapes(s: Seq<Annot<Span>>) -> Seq<RunShape> {
    s.map_values(|r: Annot<Span>| shape(r))
}

/// Two run shapes overlap strictly on a common row.
pub open spec fn shapes_conflict(a: RunShape, b: RunShape) -> bool {
    &&& a.cells.len() > 0
    &&& b.cells.len() > 0
    &&& a.y == b.y
    &&& a.x + a.cells.len() > b.x
    &&& b.x + b.cells.len() > a.x
}

/// The exact fragments [`Layer::resolve_conflict`] keeps of `b` against
/// `o`: the whole of `b` when they do not conflict, else the remainder
/// left of `o` followed by the remainder right of `o`, empty remainders
/// omitted.
pub open spec fn resolve_shapes(b: RunShape, o: RunShape) -> Seq<RunShape> {
    if !shapes_conflict(b, o) {
        seq![b]
    } else {
        let oe = o.x + o.cells.len();
        (if b.x < o.x {
            seq![RunShape { x: b.x, y: b.y, cells: b.cells.subrange(0, o.x - b.x) }]
        } else {
            Seq::empty()
        }) + (if oe < b.x + b.cells.len() {
            seq![
                RunShape {
                    x: oe as u16,
                    y: b.y,
                    cells: b.cells.subrange(oe - b.x, b.cells.len() as int),
                },
            ]
        } else {
            Seq::empty()
        })
    }
}

/// The fragments the stored runs leave behind when `sp` is written over
/// them, gathered from the last stored run down to the first — the order
/// [`Layer::push_span_write`] re-inserts them in.
pub open spec fn write_clip(ss: Seq<RunShape>, sp: RunShape) -> Seq<RunShape>
    decreases ss.len(),
{
    if ss.len() == 0 {
        Seq::empty()
    } else {
        resolve_shapes(ss.last(), sp) + write_clip(ss.drop_last(), sp)
    }
}

/// Clipping a concatenation gathers the second part's fragments first.
pub proof fn lemma_write_clip_concat(u: Seq<RunShape>, v: Seq<RunShape>, sp: RunShape)
    ensures
        write_clip(u + v, sp) == write_clip(v, sp) + write_clip(u, sp),
    decreases v.len(),
{
    if v.len() == 0 {
        assert(u + v =~= u);
        assert(write_clip(v, sp) + write_clip(u, sp) =~= write_clip(u, sp));
    } else {
        assert((u + v).last() == v.last());
        assert((u + v).drop_last() =~= u + v.drop_last());
        lemma_write_clip_concat(u, v.drop_last(), sp);
        assert(write_clip(u + v, sp) == resolve_shapes(v.last(), sp) + (write_clip(
            v.drop_last(),
            sp,
        ) + write_clip(u, sp)));
        assert(resolve_shapes(v.last(), sp) + (write_clip(v.drop_last(), sp) + write_clip(u, sp))
            =~= (resolve_shapes(v.last(), sp) + write_clip(v.drop_last(), sp)) + write_clip(
            u,
            sp,
        ));
    }
}

/// A run shape translated by `(dx, dy)`.
pub open spec fn shift_shape(r: RunShape, dx: u16, dy: u16) -> RunShape {
    RunShape { x: (r.x + dx) as u16, y: (r.y + dy) as u16, cells: r.cells }
}

/// Writing `sp` over the collection `acc`: the fragments `acc`'s runs leave
/// behind, followed by `sp` itself.
pub open spec fn write_shapes(acc: Seq<RunShape>, sp: RunShape) -> Seq<RunShape> {
    write_clip(acc, sp).push(sp)
}

/// Overlaying a queue of runs onto `acc` in order, each first translated by
/// `(dx, dy)` and then written over everything before it — the run list
/// [`Layer::overlap`] produces.
pub open spec fn overlay_shifted(acc: Seq<RunShape>, ups: Seq<RunShape>, dx: u16, dy: u16) -> Seq<
    RunShape,
>
    decreases ups.len(),
{
    if ups.len() == 0 {
        acc
    } else {
        overlay_shifted(write_shapes(acc, shift_shape(ups[0], dx, dy)), ups.skip(1), dx, dy)
    }
}

/// Overlaying one more run writes it over the overlay of the runs before
/// it.
pub proof fn lemma_overlay_shifted_push(
    acc: Seq<RunShape>,
    ups: Seq<RunShape>,
    e: RunShape,
    dx: u16,
    dy: u16,
)
    ensures
        overlay_shifted(acc, ups.push(e), dx, dy) == write_shapes(
            overlay_shifted(acc, ups, dx, dy),
            shift_shape(e, dx, dy),
        ),
    decreases ups.len(),
{
    let se = shift_shape(e, dx, dy);
    if ups.len() == 0 {
        assert(ups.push(e)[0] == e);
        assert(ups.push(e).skip(1) =~= Seq::<RunShape>::empty());
        assert(overlay_shifted(acc, ups.push(e), dx, dy) == overlay_shifted(
            write_shapes(acc, se),
            Seq::<RunShape>::empty(),
            dx,
            dy,
        ));
        assert(overlay_shifted(write_shapes(acc, se), Seq::<RunShape>::empty(), dx, dy)
            == write_shapes(acc, se));
        assert(overlay_shifted(acc, ups, dx, dy) == acc);
    } else {
        let s0 = shift_shape(ups[0], dx, dy);
        assert(ups.push(e)[0] == ups[0]);
        assert(ups.push(e).skip(1) =~= ups.skip(1).push(e));
        assert(overlay_shifted(acc, ups.push(e), dx, dy) == overlay_shifted(
            write_shapes(acc, s0),
            ups.skip(1).push(e),
            dx,
            dy,
        ));
        lemma_overlay_shifted_push(write_shapes(acc, s0), ups.skip(1), e, dx, dy);
        assert(overlay_shifted(acc, ups, dx, dy) == overlay_shifted(
            write_shapes(acc, s0),
            ups.skip(1),
            dx,
            dy,
        ));
    }
}

/// The total number of cells across a collection of run shapes.
pub open spec fn total_shape_cells(s: Seq<RunShape>) -> nat
    decreases s.len(),
{
    if s.len() == 0 {
        0
    } else {
        s[0].cells.len() + total_shape_cells(s.skip(1))
    }
}

/// The shape cell total of a concatenation is the sum of the totals.
pub proof fn lemma_total_shape_cells_concat(a: Seq<RunShape>, b: Seq<RunShape>)
    ensures
        total_shape_cells(a + b) == total_shape_cells(a) + total_shape_cells(b),
    decreases a.len(),
{
    if a.len() == 0 {
        assert(a + b =~= b);
    } else {
        assert((a + b)[0] == a[0]);
        assert((a + b).skip(1) =~= a.skip(1) + b);
        lemma_total_shape_cells_concat(a.skip(1), b);
    }
}

/// Conflicting shapes lose at least one column when resolved: the kept
/// fragments hold strictly fewer cells than the base.
pub proof fn lemma_resolve_shapes_total(b: RunShape, o: RunShape)
    requires
        shapes_conflict(b, o),
    ensures
        total_shape_cells(resolve_shapes(b, o)) < b.cells.len(),
{
    let fr = resolve_shapes(b, o);
    let oe = o.x + o.cells.len();
    if b.x < o.x && oe < b.x + b.cells.len() {
        assert(fr.len() == 2);
        assert(fr.skip(1)[0] == fr[1]);
        assert(fr.skip(1).skip(1) =~= Seq::<RunShape>::empty());
        assert(total_shape_cells(fr.skip(1).skip(1)) == 0);
        assert(total_shape_cells(fr.skip(1)) == fr[1].cells.len());
        assert(total_shape_cells(fr) == fr[0].cells.len() + fr[1].cells.len());
    } else if fr.len() == 1 {
        assert(fr.skip(1) =~= Seq::<RunShape>::empty());
        assert(total_shape_cells(fr.skip(1)) == 0);
        assert(total_shape_cells(fr) == fr[0].cells.len());
    } else {
        assert(fr.len() == 0);
        assert(total_shape_cells(fr) == 0);
    }
}

/// The position of the first run shape conflicting with `e`, if any.
pub open spec fn find_conflict(ex: Seq<RunShape>, e: RunShape) -> Option<int>
    decreases ex.len(),
{
    if ex.len() == 0 {
        None
    } else if shapes_conflict(ex[0], e) {
        Some(0int)
    } else {
        match find_conflict(ex.skip(1), e) {
            Option::None => None,
            Option::Some(c) => Some(c + 1),
        }
    }
}

/// What [`find_conflict`] finds: nothing when no shape conflicts, else the
/// first conflicting index.
pub proof fn lemma_find_conflict(ex: Seq<RunShape>, e: RunShape)
    ensures
        find_conflict(ex, e) is None ==> forall|m: int|
            0 <= m < ex.len() ==> !shapes_conflict(#[trigger] ex[m], e),
        find_conflict(ex, e) matches Some(c) ==> 0 <= c < ex.len() && shapes_conflict(ex[c], e)
            && (forall|m: int| 0 <= m < c ==> !shapes_conflict(#[trigger] ex[m], e)),
    decreases ex.len(),
{
    if ex.len() > 0 && !shapes_conflict(ex[0], e) {
        lemma_find_conflict(ex.skip(1), e);
        assert forall|m: int| 0 <= m < ex.skip(1).len() implies ex.skip(1)[m] == ex[m + 1] by {}
        match find_conflict(ex, e) {
            Option::Some(c) => {
                assert(find_conflict(ex.skip(1), e) == Some(c - 1));
                assert(shapes_conflict(ex.skip(1)[c - 1], e));
                assert forall|m: int| 0 <= m < c implies !shapes_conflict(#[trigger] ex[m], e) by {
                    if m > 0 {
                        assert(ex[m] == ex.skip(1)[m - 1]);
                    }
                }
            },
            Option::None => {
                assert forall|m: int|
                    0 <= m < ex.len() implies !shapes_conflict(#[trigger] ex[m], e) by {
                    if m > 0 {
                        assert(ex[m] == ex.skip(1)[m - 1]);
                    }
                }
            },
        }
    }
}

/// Two well-formed placed runs conflict exactly when their shapes do.
pub proof fn lemma_conflicts_shapes(a: Annot<Span>, b: Annot<Span>)
    requires
        a.spec_inner().wf(),
        b.spec_inner().wf(),
    ensures
        conflicts(a, b) == shapes_conflict(shape(a), shape(b)),
{
}

#[via_fn]
proof fn fixed_clip_decreases(queue: Seq<RunShape>, existing: Seq<RunShape>) {
    if queue.len() > 0 {
        let e = queue[0];
        match find_conflict(existing, e) {
            Option::Some(c) => {
                lemma_find_conflict(existing, e);
                lemma_resolve_shapes_total(e, existing[c]);
                lemma_total_shape_cells_concat(queue.skip(1), resolve_shapes(e, existing[c]));
                assert(queue =~= seq![e] + queue.skip(1));
                lemma_total_shape_cells_concat(seq![e], queue.skip(1));
                assert(seq![e][0] == e);
                assert(seq![e].skip(1) =~= Seq::<RunShape>::empty());
                assert(total_shape_cells(seq![e]) == e.cells.len());
            },
            Option::None => {
                assert(queue =~= seq![e] + queue.skip(1));
                lemma_total_shape_cells_concat(seq![e], queue.skip(1));
                assert(seq![e][0] == e);
                assert(seq![e].skip(1) =~= Seq::<RunShape>::empty());
                assert(total_shape_cells(seq![e]) == e.cells.len());
            },
        }
    }
}

/// The fragments of a work queue of candidate runs clipped to the gaps of
/// `existing`: each queued run is kept whole when nothing conflicts with
/// it, else cut against the first conflicting run and its pieces requeued —
/// the run list [`Layer::push_span_fixed`] appends.
pub open spec fn fixed_clip(queue: Seq<RunShape>, existing: Seq<RunShape>) -> Seq<RunShape>
    decreases total_shape_cells(queue), queue.len()
        via fixed_clip_decreases
{
    if queue.len() == 0 {
        Seq::empty()
    } else {
        let e = queue[0];
        match find_conflict(existing, e) {
            Option::None => seq![e] + fixed_clip(queue.skip(1), existing),
            Option::Some(c) => fixed_clip(queue.skip(1) + resolve_shapes(e, existing[c]), existing),
        }
    }
}

/// Two well-formed placed runs conflict exactly when they cover a common
/// grid point.
pub proof fn lemma_conflict_cover(a: Annot<Span>, b: Annot<Span>)
    requires
        a.spec_inner().wf(),
        b.spec_inner().wf(),
    ensures
        conflicts(a, b) <==> exists|x: int, y: int| span_covers(a, x, y) && span_covers(b, x, y),
{
    if conflicts(a, b) {
        let x: int = if a.spec_x() > b.spec_x() {
            a.spec_x() as int
        } else {
            b.spec_x() as int
        };
        let y: int = a.spec_y() as int;
        assert(span_covers(a, x, y) && span_covers(b, x, y));
    }
}

/// Under the layer invariant, at most one run covers any grid point.
pub proof fn lemma_cover_unique(spans: Seq<Annot<Span>>, x: int, y: int, i: int, j: int)
    requires
        spans_wf(spans),
        0 <= i < spans.len(),
        0 <= j < spans.len(),
        span_covers(spans[i], x, y),
        span_covers(spans[j], x, y),
    ensures
        i == j,
{
    if i != j {
        lemma_conflict_cover(spans[i], spans[j]);
    }
}

/// Under the layer invariant, the cell shown at a point covered by run `i`
/// is run `i`'s cell.
pub proof fn lemma_cell_at_index(spans: Seq<Annot<Span>>, x: int, y: int, i: int)
    requires
        spans_wf(spans),
        0 <= i < spans.len(),
        span_covers(spans[i], x, y),
    ensures
        cell_at(spans, x, y) == Some(span_cell(spans[i], x)),
{
    assert(covered(spans, x, y));
    lemma_cover_unique(spans, x, y, i, cover_index(spans, x, y));
}

/// Coverage distributes over concatenation.
pub proof fn lemma_covered_append(a: Seq<Annot<Span>>, b: Seq<Annot<Span>>)
    ensures
        forall|x: int, y: int| covered(a + b, x, y) <==> (covered(a, x, y) || covered(b, x, y)),
{
    assert forall|x: int, y: int|
        covered(a + b, x, y) <==> (covered(a, x, y) || covered(b, x, y)) by {
        if covered(a + b, x, y) {
            let i = choose|i: int| 0 <= i < (a + b).len() && span_covers(#[trigger] (a + b)[i], x, y);
            if i < a.len() {
                assert((a + b)[i] == a[i]);
                assert(covered(a, x, y));
            } else {
                assert((a + b)[i] == b[i - a.len()]);
                assert(covered(b, x, y));
            }
        }
        if covered(a, x, y) {
            let i = choose|i: int| 0 <= i < a.len() && span_covers(#[trigger] a[i], x, y);
            assert((a + b)[i] == a[i]);
            assert(covered(a + b, x, y));
        }
        if covered(b, x, y) {
            let i = choose|i: int| 0 <= i < b.len() && span_covers(#[trigger] b[i], x, y);
            assert((a + b)[a.len() + i] == b[i]);
            assert(covered(a + b, x, y));
        }
    }
}

/// Two collections of well-formed runs that share no covered point have no
/// conflict across them.
pub proof fn lemma_seqs_no_shared_cover(a: Seq<Annot<Span>>, b: Seq<Annot<Span>>)
    requires
        forall|i: int| 0 <= i < a.len() ==> (#[trigger] a[i]).spec_inner().wf(),
        forall|i: int| 0 <= i < b.len() ==> (#[trigger] b[i]).spec_inner().wf(),
        forall|x: int, y: int| !(covered(a, x, y) && covered(b, x, y)),
    ensures
        forall|i: int, j: int|
            0 <= i < a.len() && 0 <= j < b.len() ==> !conflicts(#[trigger] a[i], #[trigger] b[j]),
{
    assert forall|i: int, j: int|
        0 <= i < a.len() && 0 <= j < b.len() implies !conflicts(a[i], b[j]) by {
        lemma_conflict_cover(a[i], b[j]);
        if conflicts(a[i], b[j]) {
            let (x, y): (int, int) = choose|x: int, y: int|
                span_covers(a[i], x, y) && span_covers(b[j], x, y);
            assert(covered(a, x, y));
            assert(covered(b, x, y));
        }
    }
}

/// The layer invariant is preserved by concatenating two invariant-holding
/// collections with disjoint coverage.
pub proof fn lemma_spans_wf_concat(a: Seq<Annot<Span>>, b: Seq<Annot<Span>>)
    requires
        spans_wf(a),
        spans_wf(b),
        forall|x: int, y: int| !(covered(a, x, y) && covered(b, x, y)),
    ensures
        spans_wf(a + b),
{
    lemma_seqs_no_shared_cover(a, b);
    assert forall|i: int|
        0 <= i < (a + b).len() implies pspan_wf(#[trigger] (a + b)[i]) && (a
        + b)[i].spec_inner().spec_len() > 0 by {
        if i < a.len() {
            assert((a + b)[i] == a[i]);
        } else {
            assert((a + b)[i] == b[i - a.len()]);
        }
    }
    assert forall|i: int, j: int|
        0 <= i < (a + b).len() && 0 <= j < (a + b).len() && i != j implies !conflicts(
        #[trigger] (a + b)[i],
        #[trigger] (a + b)[j],
    ) by {
        let u = if i < a.len() {
            a[i]
        } else {
            b[i - a.len()]
        };
        let v = if j < a.len() {
            a[j]
        } else {
            b[j - a.len()]
        };
        assert((a + b)[i] == u);
        assert((a + b)[j] == v);
        lemma_conflict_symm_helper(u, v);
    }
}

proof fn lemma_conflict_symm_helper(a: Annot<Span>, b: Annot<Span>)
    ensures
        conflicts(a, b) == conflicts(b, a),
{
}

/// A prefix of an invariant-holding collection holds the invariant.
pub proof fn lemma_spans_wf_take(s: Seq<Annot<Span>>, n: int)
    requires
        spans_wf(s),
        0 <= n <= s.len(),
    ensures
        spans_wf(s.take(n)),
{
    assert forall|i: int|
        0 <= i < s.take(n).len() implies pspan_wf(#[trigger] s.take(n)[i]) && s.take(
        n,
    )[i].spec_inner().spec_len() > 0 by {
        assert(s.take(n)[i] == s[i]);
    }
    assert forall|i: int, j: int|
        0 <= i < s.take(n).len() && 0 <= j < s.take(n).len() && i != j implies !conflicts(
        #[trigger] s.take(n)[i],
        #[trigger] s.take(n)[j],
    ) by {
        assert(s.take(n)[i] == s[i]);
        assert(s.take(n)[j] == s[j]);
    }
}

/// Two placed runs with the same placement, tracked length and cells.
pub open spec fn same_run(a: Annot<Span>, b: Annot<Span>) -> bool {
    &&& a.spec_x() == b.spec_x()
    &&& a.spec_y() == b.spec_y()
    &&& a.spec_inner().spec_len() == b.spec_inner().spec_len()
    &&& a.spec_inner()@ == b.spec_inner()@
}

/// Collections that agree run-for-run on placement and cells show the same
/// grid and satisfy the invariant together.
pub proof fn lemma_same_runs_cell_at(a: Seq<Annot<Span>>, b: Seq<Annot<Span>>)
    requires
        a.len() == b.len(),
        forall|i: int| 0 <= i < a.len() ==> same_run(#[trigger] a[i], b[i]),
        spans_wf(b),
    ensures
        spans_wf(a),
        forall|x: int, y: int| #[trigger] covered(a, x, y) == covered(b, x, y),
        forall|x: int, y: int| #[trigger] cell_at(a, x, y) == cell_at(b, x, y),
{
    assert forall|i: int|
        0 <= i < a.len() implies pspan_wf(#[trigger] a[i]) && a[i].spec_inner().spec_len() > 0 by {
        assert(same_run(a[i], b[i]));
    }
    assert forall|i: int, j: int|
        0 <= i < a.len() && 0 <= j < a.len() && i != j implies !conflicts(
        #[trigger] a[i],
        #[trigger] a[j],
    ) by {
        assert(same_run(a[i], b[i]));
        assert(same_run(a[j], b[j]));
        assert(!conflicts(b[i], b[j]));
    }
    assert forall|x: int, y: int| #[trigger] covered(a, x, y) == covered(b, x, y) by {
        if covered(a, x, y) {
            let i = choose|i: int| 0 <= i < a.len() && span_covers(#[trigger] a[i], x, y);
            assert(same_run(a[i], b[i]));
            assert(span_covers(b[i], x, y));
            assert(covered(b, x, y));
        }
        if covered(b, x, y) {
            let i = choose|i: int| 0 <= i < b.len() && span_covers(#[trigger] b[i], x, y);
            assert(same_run(a[i], b[i]));
            assert(span_covers(a[i], x, y));
            assert(covered(a, x, y));
        }
    }
    assert forall|x: int, y: int| #[trigger] cell_at(a, x, y) == cell_at(b, x, y) by {
        if covered(a, x, y) {
            let i = choose|i: int| 0 <= i < a.len() && span_covers(#[trigger] a[i], x, y);
            assert(same_run(a[i], b[i]));
            lemma_cell_at_index(a, x, y, i);
            lemma_cell_at_index(b, x, y, i);
        }
    }
}

/// Appending a run to an invariant-holding collection shows the new run
/// where it covers and the old grid elsewhere.
pub proof fn lemma_cell_at_push(s: Seq<Annot<Span>>, e: Annot<Span>)
    requires
        spans_wf(s.push(e)),
    ensures
        forall|x: int, y: int|
            #[trigger] cell_at(s.push(e), x, y) == (if span_covers(e, x, y) {
                Some(span_cell(e, x))
            } else {
                cell_at(s, x, y)
            }),
{
    let t = s.push(e);
    assert(s =~= t.take(s.len() as int));
    lemma_spans_wf_take(t, s.len() as int);
    assert forall|x: int, y: int|
        #[trigger] cell_at(t, x, y) == (if span_covers(e, x, y) {
            Some(span_cell(e, x))
        } else {
            cell_at(s, x, y)
        }) by {
        assert(t[t.len() - 1] == e);
        if span_covers(e, x, y) {
            lemma_cell_at_index(t, x, y, t.len() - 1);
        } else {
            if covered(s, x, y) {
                let i = choose|i: int| 0 <= i < s.len() && span_covers(#[trigger] s[i], x, y);
                assert(t[i] == s[i]);
                lemma_cell_at_index(t, x, y, i);
                lemma_cell_at_index(s, x, y, i);
            } else {
                if covered(t, x, y) {
                    let i = choose|i: int| 0 <= i < t.len() && span_covers(#[trigger] t[i], x, y);
                    if i < s.len() {
                        assert(t[i] == s[i]);
                        assert(covered(s, x, y));
                    }
                    assert(false);
                }
            }
        }
    }
}

/// A layer of placed runs at one stacking depth. After every insertion the
/// layer holds no two conflicting runs; the cached width and height cover
/// every run ever pushed and never shrink.
#[derive(Debug)]
pub struct Layer {
    width: u16,
    height: u16,
    spans: Vec<Annot<Span>>,
}

impl Layer {
    /// The placed runs of this layer, in storage order.
    pub closed spec fn spec_spans(&self) -> Seq<Annot<Span>> {
        self.spans@
    }

    /// The layer invariant: runs are well formed, non-empty, pairwise
    /// non-conflicting, and lie inside the cached bounds.
    pub open spec fn wf(&self) -> bool {
        &&& spans_wf(self.spec_spans())
        &&& forall|i: int|
            0 <= i < self.spec_spans().len() ==> span_in_bounds(
                #[trigger] self.spec_spans()[i],
                self.spec_size().0,
                self.spec_size().1,
            )
    }

    /// Get the placed runs as a slice.
    pub fn inner(&self) -> (r: &[Annot<Span>])
        ensures
            r@ == self.spec_spans(),
    {
        self.spans.as_slice()
    }

    /// Append a run and grow the cached bounds to cover it. Callers keep
    /// the layer invariant themselves.
    fn push_span(&mut self, span: Annot<Span>)
        requires
            spec_fits(span),
        ensures
            final(self).spec_spans() == old(self).spec_spans().push(span),
            final(self).spec_size().0 == (if old(self).spec_size().0
                >= span.spec_x() + crate::annot::spec_width(span) {
                old(self).spec_size().0 as int
            } else {
                span.spec_x() + crate::annot::spec_width(span)
            }),
            final(self).spec_size().1 == (if old(self).spec_size().1
                >= span.spec_y() + crate::annot::spec_height(span) {
                old(self).spec_size().1 as int
            } else {
                span.spec_y() + crate::annot::spec_height(span)
            }),
    {
        let end_pos = span.outer_apex_pos();
        if end_pos.0 > self.width {
            self.width = end_pos.0;
        }
        if end_pos.1 > self.height {
            self.height = end_pos.1;
        }
        self.spans.push(span);
    }

    /// Cut `base` down by `overlap`: returns the fragments of `base` that
    /// survive outside `overlap`'s columns, position and content unchanged.
    /// When the two do not conflict, `base` survives whole.
    fn resolve_conflict(base: Annot<Span>, overlap: &Annot<Span>) -> (r: Vec<Annot<Span>>)
        requires
            pspan_wf(base),
            base.spec_inner().spec_len() > 0,
            spec_fits(*overlap),
            overlap.spec_inner().wf(),
        ensures
            forall|i: int|
                0 <= i < r@.len() ==> pspan_wf(#[trigger] r@[i]) && r@[i].spec_inner().spec_len()
                    > 0 && r@[i].spec_y() == base.spec_y(),
            forall|i: int|
                0 <= i < r@.len() ==> (#[trigger] r@[i]).spec_x() >= base.spec_x() && r@[i].spec_x()
                    + r@[i].spec_inner()@.len() <= base.spec_x() + base.spec_inner()@.len(),
            forall|x: int, y: int|
                covered(r@, x, y) <==> (span_covers(base, x, y) && !span_covers(*overlap, x, y)),
            forall|i: int, x: int|
                0 <= i < r@.len() && #[trigger] span_covers(r@[i], x, base.spec_y() as int)
                    ==> span_cell(r@[i], x) == span_cell(base, x),
            forall|i: int, j: int|
                0 <= i < r@.len() && 0 <= j < r@.len() && i != j ==> !conflicts(
                    #[trigger] r@[i],
                    #[trigger] r@[j],
                ),
            !conflicts(base, *overlap) ==> r@ == seq![base],
            conflicts(base, *overlap) ==> total_cells(r@) < base.spec_inner()@.len(),
            shapes(r@) == resolve_shapes(shape(base), shape(*overlap)),
    {
        if !base.is_conflict(overlap) {
            let mut solved: Vec<Annot<Span>> = Vec::new();
            solved.push(base);
            proof {
                lemma_conflict_cover(base, *overlap);
                assert forall|x: int, y: int|
                    covered(solved@, x, y) <==> (span_covers(base, x, y) && !span_covers(
                        *overlap,
                        x,
                        y,
                    )) by {
                    assert(solved@[0] == base);
                    if span_covers(base, x, y) && span_covers(*overlap, x, y) {
                        assert(exists|x2: int, y2: int|
                            span_covers(base, x2, y2) && span_covers(*overlap, x2, y2));
                        assert(false);
                    }
                    if span_covers(base, x, y) {
                        assert(covered(solved@, x, y));
                    }
                    if covered(solved@, x, y) {
                        let i = choose|i: int|
                            0 <= i < solved@.len() && span_covers(#[trigger] solved@[i], x, y);
                        assert(solved@[i] == base);
                    }
                }
                assert(solved@ =~= seq![base]);
            }
            return solved;
        }
        let (overlap_begin, overlap_end) = (overlap.base_pos().0, overlap.outer_apex_pos().0);
        let (base_x, base_y) = base.base_pos();
        let is_include_begin = base.contains_pos(overlap_begin, base_y);
        let is_include_end = base.contains_pos(overlap_end - 1, base_y);
        let mut solved: Vec<Annot<Span>> = Vec::new();

        let ghost bx = base.spec_x() as int;
        let ghost by = base.spec_y() as int;
        let ghost bl = base.spec_inner()@.len() as int;
        let ghost ob = overlap_begin as int;
        let ghost oe = overlap_end as int;
        proof {
            assert(overlap.spec_y() == by);
            assert(forall|x: int, y: int|
                span_covers(*overlap, x, y) <==> (y == by && ob <= x < oe));
            assert(forall|x: int, y: int| span_covers(base, x, y) <==> (y == by && bx <= x < bx + bl));
        }

        if is_include_begin && is_include_end {
            let rel_begin = overlap_begin - base_x;
            let rel_end = overlap_end - base_x;
            let mut offs: Vec<u16> = Vec::new();
            offs.push(rel_begin);
            offs.push(rel_end);
            proof {
                assert(crate::span::sorted_offsets(offs@));
            }
            let mut parts = base.inner().split_by(offs.as_slice());
            if let Some(left) = parts.remove(0) {
                if left.len() > 0 {
                    solved.push(Annot::new((base_x, base_y), left));
                }
            }
            if let Some(right) = parts.remove(1) {
                if right.len() > 0 {
                    solved.push(Annot::new((overlap_end, base_y), right));
                }
            }
            proof {
                assert forall|x: int, y: int|
                    covered(solved@, x, y) <==> (span_covers(base, x, y) && !span_covers(
                        *overlap,
                        x,
                        y,
                    )) by {
                    if covered(solved@, x, y) {
                        let i = choose|i: int|
                            0 <= i < solved@.len() && span_covers(#[trigger] solved@[i], x, y);
                    }
                    if span_covers(base, x, y) && !span_covers(*overlap, x, y) {
                        if x < ob {
                            assert(span_covers(solved@[0], x, y));
                        } else {
                            assert(x >= oe);
                            assert(span_covers(solved@[solved@.len() - 1], x, y));
                        }
                    }
                }
                lemma_total_cells_upto2(solved@);
            }
        } else if is_include_begin {
            let rel_begin = overlap_begin - base_x;
            let mut offs: Vec<u16> = Vec::new();
            offs.push(rel_begin);
            let mut parts = base.inner().split_by(offs.as_slice());
            proof {
                assert(oe - 1 >= bx + bl);
            }
            if let Some(left) = parts.remove(0) {
                if left.len() > 0 {
                    solved.push(Annot::new((base_x, base_y), left));
                }
            }
            proof {
                assert forall|x: int, y: int|
                    covered(solved@, x, y) <==> (span_covers(base, x, y) && !span_covers(
                        *overlap,
                        x,
                        y,
                    )) by {
                    if covered(solved@, x, y) {
                        let i = choose|i: int|
                            0 <= i < solved@.len() && span_covers(#[trigger] solved@[i], x, y);
                    }
                    if span_covers(base, x, y) && !span_covers(*overlap, x, y) {
                        assert(x < ob);
                        assert(span_covers(solved@[0], x, y));
                    }
                }
                lemma_total_cells_upto2(solved@);
            }
        } else if is_include_end {
            let rel_end = overlap_end - base_x;
            let mut offs: Vec<u16> = Vec::new();
            offs.push(rel_end);
            let mut parts = base.inner().split_by(offs.as_slice());
            proof {
                assert(ob < bx);
            }
            if let Some(right) = parts.remove(1) {
                if right.len() > 0 {
                    solved.push(Annot::new((overlap_end, base_y), right));
                }
            }
            proof {
                assert forall|x: int, y: int|
                    covered(solved@, x, y) <==> (span_covers(base, x, y) && !span_covers(
                        *overlap,
                        x,
                        y,
                    )) by {
                    if covered(solved@, x, y) {
                        let i = choose|i: int|
                            0 <= i < solved@.len() && span_covers(#[trigger] solved@[i], x, y);
                    }
                    if span_covers(base, x, y) && !span_covers(*overlap, x, y) {
                        assert(x >= oe);
                        assert(span_covers(solved@[0], x, y));
                    }
                }
                lemma_total_cells_upto2(solved@);
            }
        } else {
            proof {
                assert(ob < bx);
                assert(oe - 1 >= bx + bl);
                assert forall|x: int, y: int|
                    covered(solved@, x, y) <==> (span_covers(base, x, y) && !span_covers(
                        *overlap,
                        x,
                        y,
                    )) by {}
                lemma_total_cells_upto2(solved@);
            }
        }
        solved
    }
}

impl Layer {
    /// Insert a run that wins every conflict: each existing run is cut down
    /// around `span` and re-inserted, then `span` itself is inserted
    /// unchanged. Afterwards no two runs in the layer conflict. A no-op when
    /// `span` is empty.
    #[verifier::rlimit(60)]
    pub fn push_span_write(&mut self, span: Annot<Span>)
        requires
            old(self).wf(),
            pspan_wf(span),
        ensures
            final(self).wf(),
            span.spec_inner().spec_len() == 0 ==> *final(self) == *old(self),
            span.spec_inner().spec_len() > 0 ==> {
                &&& final(self).spec_spans().len() > 0
                &&& final(self).spec_spans().last() == span
                &&& shapes(final(self).spec_spans()) == write_clip(
                    shapes(old(self).spec_spans()),
                    shape(span),
                ).push(shape(span))
                &&& forall|x: int, y: int|
                    cell_at(final(self).spec_spans(), x, y) == (if span_covers(span, x, y) {
                        Some(span_cell(span, x))
                    } else {
                        cell_at(old(self).spec_spans(), x, y)
                    })
                &&& final(self).spec_size().0 == (if old(self).spec_size().0 >= span.spec_x()
                    + span.spec_inner().spec_len() {
                    old(self).spec_size().0 as int
                } else {
                    span.spec_x() + span.spec_inner().spec_len()
                })
                &&& final(self).spec_size().1 == (if old(self).spec_size().1 >= span.spec_y() + 1 {
                    old(self).spec_size().1 as int
                } else {
                    span.spec_y() + 1
                })
            },
    {
        if span.is_empty() {
            return ;
        }
        let ghost olds = old(self).spec_spans();
        let mut tmp: Vec<Annot<Span>> = Vec::new();
        proof {
            assert(self.spans@ =~= olds.take(self.spans@.len() as int));
            assert(olds.skip(olds.len() as int) =~= Seq::<Annot<Span>>::empty());
            assert(shapes(Seq::<Annot<Span>>::empty()) =~= Seq::<RunShape>::empty());
            assert(shapes(tmp@) =~= Seq::<RunShape>::empty());
        }
        while self.spans.len() > 0
            invariant
                old(self).wf(),
                pspan_wf(span),
                span.spec_inner().spec_len() > 0,
                olds == old(self).spec_spans(),
                self.spec_size() == old(self).spec_size(),
                self.spans@.len() <= olds.len(),
                self.spans@ == olds.take(self.spans@.len() as int),
                spans_wf(tmp@),
                forall|i: int|
                    0 <= i < tmp@.len() ==> span_in_bounds(
                        #[trigger] tmp@[i],
                        old(self).spec_size().0,
                        old(self).spec_size().1,
                    ),
                forall|x: int, y: int|
                    #[trigger] covered(tmp@, x, y) <==> (covered(
                        olds.skip(self.spans@.len() as int),
                        x,
                        y,
                    ) && !span_covers(span, x, y)),
                forall|i: int, x: int, y: int|
                    0 <= i < tmp@.len() && #[trigger] span_covers(tmp@[i], x, y) ==> Some(
                        span_cell(tmp@[i], x),
                    ) == cell_at(olds, x, y),
                shapes(tmp@) == write_clip(
                    shapes(olds.skip(self.spans@.len() as int)),
                    shape(span),
                ),
            decreases self.spans@.len(),
        {
            let ghost l = self.spans@.len() as int;
            let i_span = self.spans.pop().unwrap();
            proof {
                assert(i_span == olds[l - 1]);
                assert(self.spans@ =~= olds.take(l - 1));
            }
            let mut frags = Self::resolve_conflict(i_span, &span);
            let ghost fr = frags@;
            let ghost tmp_before = tmp@;
            proof {
                // the popped run and the rest of the unprocessed suffix
                // cover disjoint points, so the new fragments stay disjoint
                // from everything gathered so far
                assert(spans_wf(fr));
                assert forall|x: int, y: int| !(covered(tmp_before, x, y) && covered(fr, x, y)) by {
                    if covered(tmp_before, x, y) && covered(fr, x, y) {
                        assert(covered(olds.skip(l), x, y));
                        let k = choose|k: int|
                            0 <= k < olds.skip(l).len() && span_covers(
                                #[trigger] olds.skip(l)[k],
                                x,
                                y,
                            );
                        assert(olds.skip(l)[k] == olds[l + k]);
                        assert(span_covers(olds[l - 1], x, y));
                        lemma_conflict_cover(olds[l - 1], olds[l + k]);
                        assert(conflicts(olds[l - 1], olds[l + k]));
                    }
                }
                lemma_spans_wf_concat(tmp_before, fr);
                lemma_covered_append(tmp_before, fr);
            }
            tmp.append(&mut frags);
            proof {
                assert(tmp@ == tmp_before + fr);
                assert(olds.skip(l - 1) =~= seq![olds[l - 1]] + olds.skip(l));
                assert(self.spans@.len() == l - 1);
                assert forall|x: int, y: int|
                    #[trigger] covered(tmp@, x, y) <==> (covered(
                        olds.skip(self.spans@.len() as int),
                        x,
                        y,
                    ) && !span_covers(span, x, y)) by {
                    assert(olds.skip(self.spans@.len() as int) == olds.skip(l - 1));
                    lemma_covered_append(seq![olds[l - 1]], olds.skip(l));
                    assert(seq![olds[l - 1]][0] == olds[l - 1]);
                    assert(covered(tmp@, x, y) <==> (covered(tmp_before, x, y) || covered(
                        fr,
                        x,
                        y,
                    )));
                    assert(covered(tmp_before, x, y) <==> (covered(olds.skip(l), x, y)
                        && !span_covers(span, x, y)));
                    assert(covered(fr, x, y) <==> (span_covers(olds[l - 1], x, y) && !span_covers(
                        span,
                        x,
                        y,
                    )));
                    assert(covered(olds.skip(l - 1), x, y) <==> (covered(
                        seq![olds[l - 1]],
                        x,
                        y,
                    ) || covered(olds.skip(l), x, y)));
                    if covered(seq![olds[l - 1]], x, y) {
                        let i = choose|i: int|
                            0 <= i < seq![olds[l - 1]].len() && span_covers(
                                #[trigger] seq![olds[l - 1]][i],
                                x,
                                y,
                            );
                        assert(i == 0);
                    }
                    if span_covers(olds[l - 1], x, y) {
                        assert(covered(seq![olds[l - 1]], x, y));
                    }
                }
                assert forall|i: int|
                    0 <= i < tmp@.len() implies span_in_bounds(
                    #[trigger] tmp@[i],
                    old(self).spec_size().0,
                    old(self).spec_size().1,
                ) by {
                    if i >= tmp_before.len() {
                        assert(tmp@[i] == fr[i - tmp_before.len()]);
                        assert(span_in_bounds(
                            olds[l - 1],
                            old(self).spec_size().0,
                            old(self).spec_size().1,
                        ));
                    }
                }
                assert forall|i: int, x: int, y: int|
                    0 <= i < tmp@.len() && #[trigger] span_covers(tmp@[i], x, y) implies Some(
                    span_cell(tmp@[i], x),
                ) == cell_at(olds, x, y) by {
                    if i >= tmp_before.len() {
                        let f = fr[i - tmp_before.len()];
                        assert(tmp@[i] == f);
                        assert(covered(fr, x, y));
                        assert(span_covers(olds[l - 1], x, y));
                        assert(y == olds[l - 1].spec_y() as int);
                        assert(span_cell(f, x) == span_cell(olds[l - 1], x));
                        lemma_cell_at_index(olds, x, y, l - 1);
                    }
                }
                let single = seq![shape(olds[l - 1])];
                lemma_write_clip_concat(single, shapes(olds.skip(l)), shape(span));
                assert(single.drop_last() =~= Seq::<RunShape>::empty());
                assert(single.last() == shape(olds[l - 1]));
                assert(write_clip(Seq::<RunShape>::empty(), shape(span))
                    == Seq::<RunShape>::empty());
                assert(write_clip(single, shape(span)) =~= resolve_shapes(
                    shape(olds[l - 1]),
                    shape(span),
                ));
                assert(shapes(olds.skip(l - 1)) =~= single + shapes(olds.skip(l)));
                assert(shapes(fr) == resolve_shapes(shape(olds[l - 1]), shape(span)));
                assert(shapes(tmp@) =~= shapes(tmp_before) + shapes(fr));
                assert(shapes(tmp@) =~= write_clip(shapes(olds.skip(l - 1)), shape(span)));
            }
        }
        let ghost tmps = tmp@;
        proof {
            assert(olds.skip(0) =~= olds);
            assert(self.spans@ =~= Seq::<Annot<Span>>::empty());
        }
        while tmp.len() > 0
            invariant
                old(self).wf(),
                pspan_wf(span),
                span.spec_inner().spec_len() > 0,
                olds == old(self).spec_spans(),
                spans_wf(tmps),
                tmp@.len() <= tmps.len(),
                tmp@ == tmps.skip(tmps.len() - tmp@.len()),
                self.spans@ == tmps.take(tmps.len() - tmp@.len()),
                self.spec_size() == old(self).spec_size(),
                forall|i: int|
                    0 <= i < tmps.len() ==> span_in_bounds(
                        #[trigger] tmps[i],
                        old(self).spec_size().0,
                        old(self).spec_size().1,
                    ),
            decreases tmp@.len(),
        {
            let ghost p = tmps.len() - tmp@.len();
            let elem = tmp.remove(0);
            proof {
                assert(tmps.skip(p)[0] == tmps[p]);
                assert(elem == tmps[p]);
                assert(tmp@ =~= tmps.skip(p + 1));
            }
            if !elem.is_empty() {
                self.push_span(elem);
            }
            proof {
                assert(tmps[p].spec_inner().spec_len() > 0);
                assert(self.spans@ =~= tmps.take(p + 1));
            }
        }
        proof {
            assert(self.spans@ =~= tmps);
        }
        self.push_span(span);
        proof {
            let fin = self.spans@;
            assert(fin == tmps.push(span));
            assert(olds.skip(0) =~= olds);
            assert(shapes(olds.skip(0)) =~= shapes(olds));
            assert(shapes(fin) =~= shapes(tmps).push(shape(span)));
            assert(shapes(fin) == write_clip(shapes(olds), shape(span)).push(shape(span)));
            assert(fin =~= tmps + seq![span]);
            assert(spans_wf(seq![span]));
            assert(seq![span][0] == span);
            assert forall|x: int, y: int| !(covered(tmps, x, y) && covered(seq![span], x, y)) by {
                assert(seq![span][0] == span);
                if covered(seq![span], x, y) {
                    let i = choose|i: int|
                        0 <= i < seq![span].len() && span_covers(#[trigger] seq![span][i], x, y);
                    assert(i == 0);
                }
            }
            lemma_spans_wf_concat(tmps, seq![span]);
            assert(spans_wf(fin));
            lemma_covered_append(tmps, seq![span]);
            assert forall|x: int, y: int|
                cell_at(fin, x, y) == (if span_covers(span, x, y) {
                    Some(span_cell(span, x))
                } else {
                    cell_at(olds, x, y)
                }) by {
                assert(seq![span][0] == span);
                if covered(seq![span], x, y) {
                    let i = choose|i: int|
                        0 <= i < seq![span].len() && span_covers(#[trigger] seq![span][i], x, y);
                    assert(i == 0);
                }
                if span_covers(span, x, y) {
                    assert(span_covers(fin[fin.len() - 1], x, y));
                    lemma_cell_at_index(fin, x, y, fin.len() - 1);
                } else {
                    if covered(tmps, x, y) {
                        let i = choose|i: int|
                            0 <= i < tmps.len() && span_covers(#[trigger] tmps[i], x, y);
                        assert(fin[i] == tmps[i]);
                        lemma_cell_at_index(fin, x, y, i);
                        assert(Some(span_cell(tmps[i], x)) == cell_at(olds, x, y));
                    } else {
                        assert(!covered(fin, x, y));
                        assert(!covered(olds, x, y));
                        assert(cell_at(fin, x, y) is None);
                        assert(cell_at(olds, x, y) is None);
                    }
                }
            }
            assert forall|i: int|
                0 <= i < fin.len() implies span_in_bounds(
                #[trigger] fin[i],
                self.spec_size().0,
                self.spec_size().1,
            ) by {
                if i < tmps.len() {
                    assert(fin[i] == tmps[i]);
                }
            }
        }
    }
}

impl Layer {
    /// Insert `span` only when it conflicts with no existing run; otherwise
    /// leave the layer untouched. A no-op when `span` is empty.
    pub fn push_span_only_valid(&mut self, span: Annot<Span>)
        requires
            old(self).wf(),
            pspan_wf(span),
        ensures
            final(self).wf(),
            (span.spec_inner().spec_len() == 0 || exists|i: int|
                0 <= i < old(self).spec_spans().len() && conflicts(
                    #[trigger] old(self).spec_spans()[i],
                    span,
                )) ==> *final(self) == *old(self),
            (span.spec_inner().spec_len() > 0 && (forall|i: int|
                0 <= i < old(self).spec_spans().len() ==> !conflicts(
                    #[trigger] old(self).spec_spans()[i],
                    span,
                ))) ==> {
                &&& final(self).spec_spans() == old(self).spec_spans().push(span)
                &&& final(self).spec_size().0 == (if old(self).spec_size().0 >= span.spec_x()
                    + span.spec_inner().spec_len() {
                    old(self).spec_size().0 as int
                } else {
                    span.spec_x() + span.spec_inner().spec_len()
                })
                &&& final(self).spec_size().1 == (if old(self).spec_size().1 >= span.spec_y() + 1 {
                    old(self).spec_size().1 as int
                } else {
                    span.spec_y() + 1
                })
            },
    {
        if span.is_empty() {
            return ;
        }
        let ghost olds = self.spec_spans();
        let mut j: usize = 0;
        let mut found = false;
        while j < self.spans.len()
            invariant
                *self == *old(self),
                olds == self.spec_spans(),
                j <= olds.len(),
                found <==> exists|m: int| 0 <= m < j && conflicts(#[trigger] olds[m], span),
            decreases olds.len() - j,
        {
            if self.spans[j].is_conflict(&span) {
                found = true;
            }
            j = j + 1;
        }
        if found {
            return ;
        }
        self.push_span(span);
        proof {
            let fin = self.spec_spans();
            assert(fin =~= olds + seq![span]);
            assert(spans_wf(seq![span]));
            assert(seq![span][0] == span);
            assert forall|x: int, y: int| !(covered(olds, x, y) && covered(seq![span], x, y)) by {
                if covered(olds, x, y) && covered(seq![span], x, y) {
                    let i = choose|i: int|
                        0 <= i < olds.len() && span_covers(#[trigger] olds[i], x, y);
                    let k = choose|k: int|
                        0 <= k < seq![span].len() && span_covers(#[trigger] seq![span][k], x, y);
                    assert(seq![span][k] == span);
                    lemma_conflict_cover(olds[i], span);
                }
            }
            lemma_spans_wf_concat(olds, seq![span]);
            assert(spans_wf(fin));
            assert forall|i: int|
                0 <= i < fin.len() implies span_in_bounds(
                #[trigger] fin[i],
                self.spec_size().0,
                self.spec_size().1,
            ) by {
                if i < olds.len() {
                    assert(fin[i] == olds[i]);
                }
            }
        }
    }

    /// Translate every run's base by `offset` and grow the cached bounds by
    /// the same amount; run contents are untouched.
    pub fn add_offset(&mut self, offset: (u16, u16))
        requires
            old(self).wf(),
            old(self).spec_size().0 + offset.0 <= u16::MAX,
            old(self).spec_size().1 + offset.1 <= u16::MAX,
        ensures
            final(self).wf(),
            final(self).spec_size().0 == old(self).spec_size().0 + offset.0,
            final(self).spec_size().1 == old(self).spec_size().1 + offset.1,
            final(self).spec_spans().len() == old(self).spec_spans().len(),
            forall|i: int|
                0 <= i < old(self).spec_spans().len() ==> {
                    &&& (#[trigger] final(self).spec_spans()[i]).spec_x() == old(
                        self,
                    ).spec_spans()[i].spec_x() + offset.0
                    &&& final(self).spec_spans()[i].spec_y() == old(self).spec_spans()[i].spec_y()
                        + offset.1
                    &&& final(self).spec_spans()[i].spec_inner() == old(
                        self,
                    ).spec_spans()[i].spec_inner()
                },
    {
        let dx = offset.0;
        let dy = offset.1;
        self.width = self.width + dx;
        self.height = self.height + dy;
        let ghost olds = old(self).spec_spans();
        let ghost ow = old(self).spec_size().0;
        let ghost oh = old(self).spec_size().1;
        let mut i: usize = 0;
        while i < self.spans.len()
            invariant
                old(self).wf(),
                olds == old(self).spec_spans(),
                ow == old(self).spec_size().0,
                oh == old(self).spec_size().1,
                ow + dx <= u16::MAX,
                oh + dy <= u16::MAX,
                self.spec_size().0 == ow + dx,
                self.spec_size().1 == oh + dy,
                i <= olds.len(),
                self.spec_spans().len() == olds.len(),
                forall|m: int|
                    i <= m < olds.len() ==> #[trigger] self.spec_spans()[m] == olds[m],
                forall|m: int|
                    0 <= m < i ==> {
                        &&& (#[trigger] self.spec_spans()[m]).spec_x() == olds[m].spec_x() + dx
                        &&& self.spec_spans()[m].spec_y() == olds[m].spec_y() + dy
                        &&& self.spec_spans()[m].spec_inner() == olds[m].spec_inner()
                    },
            decreases olds.len() - i,
        {
            proof {
                assert(span_in_bounds(olds[i as int], ow, oh));
                assert(olds[i as int].spec_inner().spec_len() > 0);
            }
            let ghost before = self.spec_spans();
            let a = self.spans.remove(i);
            let (px, py) = a.base_pos();
            let inner = a.into_inner();
            self.spans.insert(i, Annot::new((px + dx, py + dy), inner));
            proof {
                assert(self.spec_spans() =~= before.update(i as int, self.spec_spans()[i as int]));
            }
            i = i + 1;
        }
        proof {
            let fin = self.spec_spans();
            assert forall|a: int, b: int|
                0 <= a < fin.len() && 0 <= b < fin.len() && a != b implies !conflicts(
                #[trigger] fin[a],
                #[trigger] fin[b],
            ) by {
                assert(!conflicts(olds[a], olds[b]));
            }
            assert forall|a: int|
                0 <= a < fin.len() implies pspan_wf(#[trigger] fin[a])
                && fin[a].spec_inner().spec_len() > 0 && span_in_bounds(
                fin[a],
                self.spec_size().0,
                self.spec_size().1,
            ) by {
                assert(pspan_wf(olds[a]));
                assert(span_in_bounds(olds[a], ow, oh));
            }
        }
    }
}

impl Layer {
    /// Produce a new layer: all of `self`'s runs unchanged, then every run
    /// of `upper` translated by `upper`'s own offset and written over them,
    /// the upper run winning each conflict. The result is anchored at the
    /// component-wise minimum of `self_root` and `upper`'s base.
    pub fn overlap(&self, self_root: (u16, u16), upper: Annot<Layer>) -> (r: Annot<Layer>)
        requires
            self.wf(),
            upper.spec_inner().wf(),
            spec_fits(upper),
        ensures
            r.spec_inner().wf(),
            r.spec_x() == (if self_root.0 <= upper.spec_x() {
                self_root.0
            } else {
                upper.spec_x()
            }),
            r.spec_y() == (if self_root.1 <= upper.spec_y() {
                self_root.1
            } else {
                upper.spec_y()
            }),
            r.spec_inner().spec_size().0 <= (if self.spec_size().0 >= upper.spec_x()
                + upper.spec_inner().spec_size().0 {
                self.spec_size().0 as int
            } else {
                upper.spec_x() + upper.spec_inner().spec_size().0
            }),
            r.spec_inner().spec_size().1 <= (if self.spec_size().1 >= upper.spec_y()
                + upper.spec_inner().spec_size().1 {
                self.spec_size().1 as int
            } else {
                upper.spec_y() + upper.spec_inner().spec_size().1
            }),
            forall|x: int, y: int|
                #[trigger] cell_at(r.spec_inner().spec_spans(), x, y) == (if covered(
                    upper.spec_inner().spec_spans(),
                    x - upper.spec_x(),
                    y - upper.spec_y(),
                ) {
                    cell_at(
                        upper.spec_inner().spec_spans(),
                        x - upper.spec_x(),
                        y - upper.spec_y(),
                    )
                } else {
                    cell_at(self.spec_spans(), x, y)
                }),
            shapes(r.spec_inner().spec_spans()) == overlay_shifted(
                shapes(self.spec_spans()),
                shapes(upper.spec_inner().spec_spans()),
                upper.spec_x(),
                upper.spec_y(),
            ),
    {
        let ghost ss = self.spec_spans();
        let ghost us = upper.spec_inner().spec_spans();
        let ghost sw = self.spec_size().0;
        let ghost sh = self.spec_size().1;
        let ghost uxg = upper.spec_x() as int;
        let ghost uyg = upper.spec_y() as int;
        let ghost uw = upper.spec_inner().spec_size().0 as int;
        let ghost uh = upper.spec_inner().spec_size().1 as int;
        let mut new_layer = Layer::default();
        let (upper_x, upper_y) = upper.base_pos();
        let upper_layer = upper.into_inner();
        let mut i: usize = 0;
        while i < self.spans.len()
            invariant
                self.wf(),
                ss == self.spec_spans(),
                sw == self.spec_size().0,
                sh == self.spec_size().1,
                i <= ss.len(),
                new_layer.spec_spans().len() == i,
                forall|j: int| 0 <= j < i ==> same_run(#[trigger] new_layer.spec_spans()[j], ss[j]),
                new_layer.wf(),
                new_layer.spec_size().0 <= sw,
                new_layer.spec_size().1 <= sh,
            decreases ss.len() - i,
        {
            let s = &self.spans[i];
            let copied = Annot::new(s.base_pos(), s.inner().clone());
            proof {
                let nls = new_layer.spec_spans();
                assert(same_run(copied, ss[i as int]));
                assert(pspan_wf(ss[i as int]) && span_in_bounds(ss[i as int], sw, sh));
                lemma_spans_wf_take(ss, i as int + 1);
                lemma_same_runs_cell_at(nls.push(copied), ss.take(i as int + 1));
            }
            new_layer.push_span(copied);
            i = i + 1;
        }
        proof {
            lemma_same_runs_cell_at(new_layer.spec_spans(), ss);
            assert forall|m: int|
                0 <= m < new_layer.spec_spans().len() implies #[trigger] shapes(
                new_layer.spec_spans(),
            )[m] == shapes(ss)[m] by {
                assert(same_run(new_layer.spec_spans()[m], ss[m]));
            }
            assert(shapes(new_layer.spec_spans()) =~= shapes(ss));
            assert(shapes(us).take(0) =~= Seq::<RunShape>::empty());
            assert(overlay_shifted(shapes(ss), shapes(us).take(0), upper_x, upper_y) == shapes(
                ss,
            ));
        }
        let mut j: usize = 0;
        while j < upper_layer.spans.len()
            invariant
                us == upper_layer.spec_spans(),
                upper_layer.wf(),
                uxg == upper_x as int,
                uyg == upper_y as int,
                uw == upper_layer.spec_size().0 as int,
                uh == upper_layer.spec_size().1 as int,
                uxg + uw <= u16::MAX,
                uyg + uh <= u16::MAX,
                j <= us.len(),
                new_layer.wf(),
                new_layer.spec_size().0 <= (if sw >= uxg + uw {
                    sw as int
                } else {
                    uxg + uw
                }),
                new_layer.spec_size().1 <= (if sh >= uyg + uh {
                    sh as int
                } else {
                    uyg + uh
                }),
                forall|x: int, y: int|
                    #[trigger] cell_at(new_layer.spec_spans(), x, y) == (if covered(
                        us.take(j as int),
                        x - uxg,
                        y - uyg,
                    ) {
                        cell_at(us.take(j as int), x - uxg, y - uyg)
                    } else {
                        cell_at(ss, x, y)
                    }),
                upper_x == uxg,
                upper_y == uyg,
                shapes(new_layer.spec_spans()) == overlay_shifted(
                    shapes(ss),
                    shapes(us).take(j as int),
                    upper_x,
                    upper_y,
                ),
            decreases us.len() - j,
        {
            let s = &upper_layer.spans[j];
            let (rel_x, rel_y) = s.base_pos();
            let t = Annot::new((upper_x + rel_x, upper_y + rel_y), s.inner().clone());
            let ghost nls = new_layer.spec_spans();
            proof {
                assert(pspan_wf(us[j as int]) && span_in_bounds(us[j as int], uw as u16, uh as u16));
                assert(us[j as int].spec_inner().spec_len() > 0);
            }
            new_layer.push_span_write(t);
            proof {
                let e = us[j as int];
                lemma_spans_wf_take(us, j as int + 1);
                assert(us.take(j as int + 1) =~= us.take(j as int).push(e));
                lemma_cell_at_push(us.take(j as int), e);
                assert forall|x: int, y: int|
                    #[trigger] cell_at(new_layer.spec_spans(), x, y) == (if covered(
                        us.take(j as int + 1),
                        x - uxg,
                        y - uyg,
                    ) {
                        cell_at(us.take(j as int + 1), x - uxg, y - uyg)
                    } else {
                        cell_at(ss, x, y)
                    }) by {
                    assert(span_covers(t, x, y) <==> span_covers(e, x - uxg, y - uyg));
                    assert(cell_at(new_layer.spec_spans(), x, y) == (if span_covers(t, x, y) {
                        Some(span_cell(t, x))
                    } else {
                        cell_at(nls, x, y)
                    }));
                    assert(cell_at(us.take(j as int + 1), x - uxg, y - uyg) == (if span_covers(
                        e,
                        x - uxg,
                        y - uyg,
                    ) {
                        Some(span_cell(e, x - uxg))
                    } else {
                        cell_at(us.take(j as int), x - uxg, y - uyg)
                    }));
                    if span_covers(t, x, y) {
                        assert(span_cell(t, x) == span_cell(e, x - uxg));
                        assert(covered(us.take(j as int + 1), x - uxg, y - uyg)) by {
                            assert(us.take(j as int + 1)[j as int] == e);
                        }
                    } else {
                        if covered(us.take(j as int + 1), x - uxg, y - uyg) {
                            assert(covered(us.take(j as int), x - uxg, y - uyg)) by {
                                let m = choose|m: int|
                                    0 <= m < us.take(j as int + 1).len() && span_covers(
                                        #[trigger] us.take(j as int + 1)[m],
                                        x - uxg,
                                        y - uyg,
                                    );
                                assert(m < j as int);
                                assert(us.take(j as int)[m] == us.take(j as int + 1)[m]);
                            }
                        }
                    }
                }
                assert(shapes(us)[j as int] == shape(e));
                assert(shape(t) == shift_shape(shapes(us)[j as int], upper_x, upper_y));
                assert(shapes(new_layer.spec_spans()) == write_shapes(shapes(nls), shape(t)));
                lemma_overlay_shifted_push(
                    shapes(ss),
                    shapes(us).take(j as int),
                    shapes(us)[j as int],
                    upper_x,
                    upper_y,
                );
                assert(shapes(us).take(j as int + 1) =~= shapes(us).take(j as int).push(
                    shapes(us)[j as int],
                ));
            }
            j = j + 1;
        }
        proof {
            assert(us.take(us.len() as int) =~= us);
            assert(shapes(us).take(us.len() as int) =~= shapes(us));
        }
        let root_x = if self_root.0 < upper_x {
            self_root.0
        } else {
            upper_x
        };
        let root_y = if self_root.1 < upper_y {
            self_root.1
        } else {
            upper_y
        };
        new_layer.annotate((root_x, root_y))
    }
}

impl Layer {
    /// The index of some existing run conflicting with `e`, if any.
    fn first_conflict(&self, e: &Annot<Span>) -> (r: Option<usize>)
        ensures
            r is None ==> forall|m: int|
                0 <= m < self.spec_spans().len() ==> !conflicts(#[trigger] self.spec_spans()[m], *e),
            r matches Some(c) ==> c < self.spec_spans().len() && conflicts(
                self.spec_spans()[c as int],
                *e,
            ) && (forall|m: int|
                0 <= m < c ==> !conflicts(#[trigger] self.spec_spans()[m], *e)),
    {
        let mut j: usize = 0;
        while j < self.spans.len()
            invariant
                j <= self.spec_spans().len(),
                forall|m: int| 0 <= m < j ==> !conflicts(#[trigger] self.spec_spans()[m], *e),
            decreases self.spec_spans().len() - j,
        {
            if self.spans[j].is_conflict(e) {
                return Some(j);
            }
            j = j + 1;
        }
        None
    }

    /// Insert a run clipped to the gaps: existing runs never change, and the
    /// surviving fragments of `span` cover exactly the columns of its row
    /// not already covered by an existing run. A no-op when `span` is empty.
    pub fn push_span_fixed(&mut self, span: Annot<Span>)
        requires
            old(self).wf(),
            pspan_wf(span),
        ensures
            final(self).wf(),
            span.spec_inner().spec_len() == 0 ==> *final(self) == *old(self),
            span.spec_inner().spec_len() > 0 ==> {
                &&& final(self).spec_spans().len() >= old(self).spec_spans().len()
                &&& final(self).spec_spans().take(old(self).spec_spans().len() as int) == old(
                    self,
                ).spec_spans()
                &&& shapes(final(self).spec_spans()) == shapes(old(self).spec_spans())
                    + fixed_clip(seq![shape(span)], shapes(old(self).spec_spans()))
                &&& forall|i: int, x: int, y: int|
                    old(self).spec_spans().len() <= i < final(self).spec_spans().len()
                        && #[trigger] span_covers(final(self).spec_spans()[i], x, y) ==> !covered(
                        old(self).spec_spans(),
                        x,
                        y,
                    ) && span_covers(span, x, y) && span_cell(final(self).spec_spans()[i], x)
                        == span_cell(span, x)
                &&& forall|x: int, y: int|
                    #[trigger] covered(final(self).spec_spans(), x, y) <==> (covered(
                        old(self).spec_spans(),
                        x,
                        y,
                    ) || span_covers(span, x, y))
                &&& forall|x: int, y: int|
                    #[trigger] cell_at(final(self).spec_spans(), x, y) == (if covered(
                        old(self).spec_spans(),
                        x,
                        y,
                    ) {
                        cell_at(old(self).spec_spans(), x, y)
                    } else if span_covers(span, x, y) {
                        Some(span_cell(span, x))
                    } else {
                        None
                    })
                &&& final(self).spec_size().0 >= old(self).spec_size().0
                &&& final(self).spec_size().1 >= old(self).spec_size().1
                &&& final(self).spec_size().0 <= (if old(self).spec_size().0 >= span.spec_x()
                    + span.spec_inner().spec_len() {
                    old(self).spec_size().0 as int
                } else {
                    span.spec_x() + span.spec_inner().spec_len()
                })
                &&& final(self).spec_size().1 <= (if old(self).spec_size().1 >= span.spec_y() + 1 {
                    old(self).spec_size().1 as int
                } else {
                    span.spec_y() + 1
                })
            },
    {
        if span.is_empty() {
            return ;
        }
        let ghost olds = self.spec_spans();
        let mut keep: Vec<Annot<Span>> = Vec::new();
        let mut queue: Vec<Annot<Span>> = Vec::new();
        queue.push(span);
        proof {
            assert(keep@ + queue@ =~= queue@);
            assert(queue@[0] == span);
            assert(spans_wf(queue@));
            assert(clipped_from(span, span));
            assert(shapes(queue@) =~= seq![shape(span)]);
            assert(shapes(keep@) =~= Seq::<RunShape>::empty());
            assert(shapes(keep@) + fixed_clip(shapes(queue@), shapes(olds)) =~= fixed_clip(
                seq![shape(span)],
                shapes(olds),
            ));
            assert forall|x: int, y: int|
                (covered(keep@, x, y) || (covered(queue@, x, y) && !covered(olds, x, y))) <==> (
            #[trigger] span_covers(span, x, y) && !covered(olds, x, y)) by {
                if covered(queue@, x, y) {
                    let i = choose|i: int|
                        0 <= i < queue@.len() && span_covers(#[trigger] queue@[i], x, y);
                    assert(queue@[i] == span);
                }
                if span_covers(span, x, y) {
                    assert(span_covers(queue@[0], x, y));
                    assert(covered(queue@, x, y));
                }
            }
        }
        while queue.len() > 0
            invariant
                old(self).wf(),
                pspan_wf(span),
                span.spec_inner().spec_len() > 0,
                *self == *old(self),
                olds == old(self).spec_spans(),
                spans_wf(keep@ + queue@),
                forall|i: int| 0 <= i < keep@.len() ==> clipped_from(#[trigger] keep@[i], span),
                forall|i: int| 0 <= i < queue@.len() ==> clipped_from(#[trigger] queue@[i], span),
                forall|i: int, x: int, y: int|
                    0 <= i < keep@.len() && #[trigger] span_covers(keep@[i], x, y) ==> !covered(
                        olds,
                        x,
                        y,
                    ),
                forall|x: int, y: int|
                    (covered(keep@, x, y) || (covered(queue@, x, y) && !covered(olds, x, y))) <==> (
                    #[trigger] span_covers(span, x, y) && !covered(olds, x, y)),
                shapes(keep@) + fixed_clip(shapes(queue@), shapes(olds)) == fixed_clip(
                    seq![shape(span)],
                    shapes(olds),
                ),
            decreases total_cells(queue@),
        {
            let ghost q0 = queue@;
            let ghost k0 = keep@;
            let e = queue.remove(0);
            proof {
                assert(e == q0[0]);
                assert(queue@ =~= q0.skip(1));
                assert((k0 + q0)[k0.len() as int] == e);
                assert(pspan_wf(e) && e.spec_inner().spec_len() > 0);
                assert(q0 =~= seq![e] + q0.skip(1));
                lemma_total_cells_concat(seq![e], q0.skip(1));
                lemma_total_cells_upto2(seq![e]);
                lemma_covered_append(seq![e], q0.skip(1));
                assert(seq![e][0] == e);
                assert forall|x: int, y: int|
                    #[trigger] covered(seq![e], x, y) <==> span_covers(e, x, y) by {
                    if covered(seq![e], x, y) {
                        let i = choose|i: int|
                            0 <= i < seq![e].len() && span_covers(#[trigger] seq![e][i], x, y);
                        assert(i == 0);
                    }
                    if span_covers(e, x, y) {
                        assert(span_covers(seq![e][0], x, y));
                    }
                }
            }
            let found = self.first_conflict(&e);
            match found {
                None => {
                    proof {
                        assert forall|x: int, y: int|
                            #[trigger] span_covers(e, x, y) implies !covered(olds, x, y) by {
                            if covered(olds, x, y) {
                                let m = choose|m: int|
                                    0 <= m < olds.len() && span_covers(#[trigger] olds[m], x, y);
                                lemma_conflict_cover(olds[m], e);
                            }
                        }
                    }
                    keep.push(e);
                    proof {
                        assert(keep@ =~= k0 + seq![e]);
                        assert(keep@ + queue@ =~= k0 + q0);
                        lemma_covered_append(k0, seq![e]);
                        assert forall|i: int|
                            0 <= i < keep@.len() implies clipped_from(
                            #[trigger] keep@[i],
                            span,
                        ) by {
                            if i < k0.len() {
                                assert(keep@[i] == k0[i]);
                            } else {
                                assert(keep@[i] == e);
                            }
                        }
                        assert forall|i: int, x: int, y: int|
                            0 <= i < keep@.len() && #[trigger] span_covers(keep@[i], x, y)
                                implies !covered(olds, x, y) by {
                            if i < k0.len() {
                                assert(keep@[i] == k0[i]);
                            } else {
                                assert(keep@[i] == e);
                            }
                        }
                        assert forall|x: int, y: int|
                            (covered(keep@, x, y) || (covered(queue@, x, y) && !covered(
                                olds,
                                x,
                                y,
                            ))) <==> (#[trigger] span_covers(span, x, y) && !covered(
                                olds,
                                x,
                                y,
                            )) by {
                            assert(covered(keep@, x, y) <==> (covered(k0, x, y) || covered(
                                seq![e],
                                x,
                                y,
                            )));
                            assert(covered(q0, x, y) <==> (covered(seq![e], x, y) || covered(
                                q0.skip(1),
                                x,
                                y,
                            )));
                        }
                        lemma_find_conflict(shapes(olds), shape(e));
                        assert forall|m: int|
                            0 <= m < olds.len() implies !shapes_conflict(
                            #[trigger] shapes(olds)[m],
                            shape(e),
                        ) by {
                            assert(shapes(olds)[m] == shape(olds[m]));
                            lemma_conflicts_shapes(olds[m], e);
                        }
                        assert(find_conflict(shapes(olds), shape(e)) is None) by {
                            match find_conflict(shapes(olds), shape(e)) {
                                Option::Some(c) => {
                                    assert(shapes_conflict(shapes(olds)[c], shape(e)));
                                },
                                Option::None => {},
                            }
                        }
                        assert(shapes(q0)[0] == shape(e));
                        assert(fixed_clip(shapes(q0), shapes(olds)) == seq![shape(e)] + fixed_clip(
                            shapes(q0).skip(1),
                            shapes(olds),
                        ));
                        assert(shapes(q0).skip(1) =~= shapes(q0.skip(1)));
                        assert(shapes(keep@) =~= shapes(k0) + seq![shape(e)]);
                        assert(shapes(keep@) + fixed_clip(shapes(queue@), shapes(olds)) =~= shapes(
                            k0,
                        ) + (seq![shape(e)] + fixed_clip(shapes(q0.skip(1)), shapes(olds))));
                    }
                }
                Some(c) => {
                    let ghost oc = olds[c as int];
                    proof {
                        assert(pspan_wf(oc));
                    }
                    let mut frags = Self::resolve_conflict(e, &self.spans[c]);
                    let ghost fr = frags@;
                    queue.append(&mut frags);
                    proof {
                        assert(queue@ =~= q0.skip(1) + fr);
                        lemma_spans_wf_drop_mid(k0, q0);
                        assert forall|x: int, y: int|
                            !(covered(k0 + q0.skip(1), x, y) && covered(fr, x, y)) by {
                            if covered(k0 + q0.skip(1), x, y) && covered(fr, x, y) {
                                assert(span_covers(e, x, y));
                                let m = choose|m: int|
                                    0 <= m < (k0 + q0.skip(1)).len() && span_covers(
                                        #[trigger] (k0 + q0.skip(1))[m],
                                        x,
                                        y,
                                    );
                                let m2: int = if m < k0.len() {
                                    m
                                } else {
                                    m + 1
                                };
                                assert((k0 + q0.skip(1))[m] == (k0 + q0)[m2]);
                                assert(m2 != k0.len());
                                lemma_conflict_cover((k0 + q0)[m2], e);
                                assert(conflicts((k0 + q0)[m2], (k0 + q0)[k0.len() as int]));
                            }
                        }
                        lemma_spans_wf_concat(k0 + q0.skip(1), fr);
                        assert(keep@ + queue@ =~= (k0 + q0.skip(1)) + fr);
                        assert(clipped_from(e, span));
                        assert forall|i: int|
                            0 <= i < fr.len() implies clipped_from(#[trigger] fr[i], span) by {
                            assert forall|x: int|
                                #[trigger] span_covers(fr[i], x, span.spec_y() as int)
                                    implies span_cell(fr[i], x) == span_cell(span, x) by {
                                assert(span_covers(fr[i], x, e.spec_y() as int));
                                assert(span_cell(fr[i], x) == span_cell(e, x));
                                assert(span_covers(e, x, e.spec_y() as int));
                            }
                        }
                        lemma_covered_append(q0.skip(1), fr);
                        assert forall|x: int, y: int|
                            (covered(keep@, x, y) || (covered(queue@, x, y) && !covered(
                                olds,
                                x,
                                y,
                            ))) <==> (#[trigger] span_covers(span, x, y) && !covered(
                                olds,
                                x,
                                y,
                            )) by {
                            assert(covered(q0, x, y) <==> (covered(seq![e], x, y) || covered(
                                q0.skip(1),
                                x,
                                y,
                            )));
                            assert(covered(queue@, x, y) <==> (covered(q0.skip(1), x, y) || covered(
                                fr,
                                x,
                                y,
                            )));
                            assert(covered(fr, x, y) <==> (span_covers(e, x, y) && !span_covers(
                                oc,
                                x,
                                y,
                            )));
                            if span_covers(oc, x, y) {
                                assert(covered(olds, x, y));
                            }
                        }
                        lemma_total_cells_concat(q0.skip(1), fr);
                        assert(total_cells(fr) < e.spec_inner()@.len());
                        lemma_find_conflict(shapes(olds), shape(e));
                        assert(shapes(olds)[c as int] == shape(olds[c as int]));
                        assert(shapes_conflict(shapes(olds)[c as int], shape(e))) by {
                            lemma_conflicts_shapes(olds[c as int], e);
                        }
                        assert forall|m: int|
                            0 <= m < c implies !shapes_conflict(
                            #[trigger] shapes(olds)[m],
                            shape(e),
                        ) by {
                            assert(shapes(olds)[m] == shape(olds[m]));
                            lemma_conflicts_shapes(olds[m], e);
                        }
                        assert(find_conflict(shapes(olds), shape(e)) == Some(c as int)) by {
                            match find_conflict(shapes(olds), shape(e)) {
                                Option::Some(c2) => {
                                    assert(shapes_conflict(shapes(olds)[c2], shape(e)));
                                    if c2 < c as int {
                                        assert(!shapes_conflict(shapes(olds)[c2], shape(e)));
                                    }
                                    if c2 > c as int {
                                        assert(!shapes_conflict(shapes(olds)[c as int], shape(e)));
                                    }
                                },
                                Option::None => {
                                    assert(!shapes_conflict(shapes(olds)[c as int], shape(e)));
                                },
                            }
                        }
                        assert(shapes(q0)[0] == shape(e));
                        assert(fixed_clip(shapes(q0), shapes(olds)) == fixed_clip(
                            shapes(q0).skip(1) + resolve_shapes(shape(e), shapes(olds)[c as int]),
                            shapes(olds),
                        ));
                        assert(shapes(fr) == resolve_shapes(shape(e), shape(olds[c as int])));
                        assert(shapes(queue@) =~= shapes(q0).skip(1) + resolve_shapes(
                            shape(e),
                            shapes(olds)[c as int],
                        ));
                    }
                }
            }
        }
        let ghost keeps = keep@;
        proof {
            assert(keep@ + queue@ =~= keeps);
            assert(spans_wf(keeps));
            assert forall|x: int, y: int|
                #[trigger] covered(keeps, x, y) <==> (span_covers(span, x, y) && !covered(
                    olds,
                    x,
                    y,
                )) by {
                assert((covered(keep@, x, y) || (covered(queue@, x, y) && !covered(olds, x, y)))
                    <==> (span_covers(span, x, y) && !covered(olds, x, y)));
            }
            assert forall|x: int, y: int| !(covered(olds, x, y) && covered(keeps, x, y)) by {}
            lemma_spans_wf_concat(olds, keeps);
            lemma_covered_append(olds, keeps);
            assert(self.spec_spans() =~= olds + keeps.take(0));
            assert(shapes(queue@) =~= Seq::<RunShape>::empty());
            assert(fixed_clip(Seq::<RunShape>::empty(), shapes(olds)) == Seq::<RunShape>::empty());
            assert(shapes(keeps) + Seq::<RunShape>::empty() =~= shapes(keeps));
            assert(shapes(keeps) == fixed_clip(seq![shape(span)], shapes(olds)));
        }
        while keep.len() > 0
            invariant
                old(self).wf(),
                pspan_wf(span),
                span.spec_inner().spec_len() > 0,
                olds == old(self).spec_spans(),
                spans_wf(keeps),
                spans_wf(olds + keeps),
                forall|i: int| 0 <= i < keeps.len() ==> clipped_from(#[trigger] keeps[i], span),
                forall|i: int, x: int, y: int|
                    0 <= i < keeps.len() && #[trigger] span_covers(keeps[i], x, y) ==> !covered(
                        olds,
                        x,
                        y,
                    ),
                keep@.len() <= keeps.len(),
                keep@ == keeps.skip(keeps.len() - keep@.len()),
                self.spec_spans() == olds + keeps.take(keeps.len() - keep@.len()),
                self.spec_size().0 >= old(self).spec_size().0,
                self.spec_size().1 >= old(self).spec_size().1,
                self.spec_size().0 <= (if old(self).spec_size().0 >= span.spec_x()
                    + span.spec_inner().spec_len() {
                    old(self).spec_size().0 as int
                } else {
                    span.spec_x() + span.spec_inner().spec_len()
                }),
                self.spec_size().1 <= (if old(self).spec_size().1 >= span.spec_y() + 1 {
                    old(self).spec_size().1 as int
                } else {
                    span.spec_y() + 1
                }),
                forall|i: int|
                    0 <= i < self.spec_spans().len() ==> span_in_bounds(
                        #[trigger] self.spec_spans()[i],
                        self.spec_size().0,
                        self.spec_size().1,
                    ),
            decreases keep@.len(),
        {
            let ghost p = keeps.len() - keep@.len();
            let elem = keep.remove(0);
            proof {
                assert(keeps.skip(p)[0] == keeps[p]);
                assert(elem == keeps[p]);
                assert(keep@ =~= keeps.skip(p + 1));
                assert(pspan_wf(elem) && elem.spec_inner().spec_len() > 0);
                assert(clipped_from(elem, span));
            }
            if !elem.is_empty() {
                self.push_span(elem);
            }
            proof {
                assert(self.spec_spans() =~= olds + keeps.take(p + 1));
            }
        }
        proof {
            let fin = self.spec_spans();
            assert(fin =~= olds + keeps);
            assert(fin.take(olds.len() as int) =~= olds);
            assert(shapes(fin) =~= shapes(olds) + shapes(keeps));
            assert(shapes(fin) == shapes(olds) + fixed_clip(seq![shape(span)], shapes(olds)));
            assert forall|i: int, x: int, y: int|
                olds.len() <= i < fin.len() && #[trigger] span_covers(fin[i], x, y) implies
                !covered(olds, x, y) && span_covers(span, x, y) && span_cell(fin[i], x)
                    == span_cell(span, x) by {
                assert(fin[i] == keeps[i - olds.len()]);
                assert(clipped_from(keeps[i - olds.len()], span));
                assert(y == span.spec_y() as int);
            }
            assert forall|x: int, y: int|
                #[trigger] covered(fin, x, y) <==> (covered(olds, x, y) || span_covers(
                    span,
                    x,
                    y,
                )) by {
                assert(covered(fin, x, y) <==> (covered(olds, x, y) || covered(keeps, x, y)));
                if span_covers(span, x, y) && !covered(olds, x, y) {
                    assert(covered(keeps, x, y));
                }
            }
            assert forall|x: int, y: int|
                #[trigger] cell_at(fin, x, y) == (if covered(olds, x, y) {
                    cell_at(olds, x, y)
                } else if span_covers(span, x, y) {
                    Some(span_cell(span, x))
                } else {
                    None
                }) by {
                if covered(olds, x, y) {
                    let i = choose|i: int| 0 <= i < olds.len() && span_covers(#[trigger] olds[i], x, y);
                    assert(fin[i] == olds[i]);
                    lemma_cell_at_index(fin, x, y, i);
                    lemma_cell_at_index(olds, x, y, i);
                } else if span_covers(span, x, y) {
                    assert(covered(keeps, x, y));
                    let k = choose|k: int|
                        0 <= k < keeps.len() && span_covers(#[trigger] keeps[k], x, y);
                    assert(fin[olds.len() + k] == keeps[k]);
                    lemma_cell_at_index(fin, x, y, olds.len() + k);
                    assert(clipped_from(keeps[k], span));
                    assert(y == span.spec_y() as int);
                    assert(span_cell(keeps[k], x) == span_cell(span, x));
                } else {
                    assert(!covered(fin, x, y));
                }
            }
        }
    }
}

impl Layer {
    /// Take out the first run the predicate accepts, replacing it by the
    /// last run to keep storage compact.
    pub fn take_with<F: Fn(&Annot<Span>) -> bool>(&mut self, f: F) -> (r: Option<Annot<Span>>)
        requires
            old(self).wf(),
            forall|i: int|
                0 <= i < old(self).spec_spans().len() ==> call_requires(
                    f,
                    (&old(self).spec_spans()[i],),
                ),
        ensures
            final(self).wf(),
            final(self).spec_size() == old(self).spec_size(),
            r is None ==> *final(self) == *old(self) && (forall|i: int|
                0 <= i < old(self).spec_spans().len() ==> call_ensures(
                    f,
                    (&old(self).spec_spans()[i],),
                    false,
                )),
            r matches Some(s) ==> (exists|p: int|
                0 <= p < old(self).spec_spans().len() && #[trigger] old(self).spec_spans()[p] == s
                    && call_ensures(f, (&old(self).spec_spans()[p],), true) && (forall|m: int|
                    0 <= m < p ==> call_ensures(f, (&old(self).spec_spans()[m],), false))
                    && final(self).spec_spans() == old(self).spec_spans().update(
                    p,
                    old(self).spec_spans().last(),
                ).drop_last()),
    {
        let ghost olds = self.spec_spans();
        let mut p: usize = 0;
        while p < self.spans.len()
            invariant
                old(self).wf(),
                *self == *old(self),
                olds == old(self).spec_spans(),
                p <= olds.len(),
                forall|i: int|
                    0 <= i < olds.len() ==> call_requires(f, (&#[trigger] olds[i],)),
                forall|m: int| 0 <= m < p ==> call_ensures(f, (&#[trigger] olds[m],), false),
            decreases olds.len() - p,
        {
            if f(&self.spans[p]) {
                let s = self.spans.swap_remove(p);
                proof {
                    let fin = self.spec_spans();
                    assert(s == olds[p as int]);
                    assert(fin == olds.update(p as int, olds.last()).drop_last());
                    assert forall|i: int|
                        0 <= i < fin.len() implies pspan_wf(#[trigger] fin[i])
                        && fin[i].spec_inner().spec_len() > 0 && span_in_bounds(
                        fin[i],
                        self.spec_size().0,
                        self.spec_size().1,
                    ) by {
                        let i2: int = if i == p as int {
                            olds.len() - 1
                        } else {
                            i
                        };
                        assert(fin[i] == olds[i2]);
                    }
                    assert forall|i: int, j: int|
                        0 <= i < fin.len() && 0 <= j < fin.len() && i != j implies !conflicts(
                        #[trigger] fin[i],
                        #[trigger] fin[j],
                    ) by {
                        let i2: int = if i == p as int {
                            olds.len() - 1
                        } else {
                            i
                        };
                        let j2: int = if j == p as int {
                            olds.len() - 1
                        } else {
                            j
                        };
                        assert(fin[i] == olds[i2]);
                        assert(fin[j] == olds[j2]);
                    }
                }
                return Some(s);
            }
            p = p + 1;
        }
        None
    }
}

impl PartialEq for Layer {
    fn eq(&self, other: &Self) -> (r: bool) {
        if self.width != other.width || self.height != other.height || self.spans.len()
            != other.spans.len() {
            return false;
        }
        let mut i: usize = 0;
        while i < self.spans.len()
            invariant
                i <= self.spans.len(),
                self.spans.len() == other.spans.len(),
                self.spec_size() == other.spec_size(),
                forall|m: int|
                    0 <= m < i ==> same_run(#[trigger] self.spec_spans()[m], other.spec_spans()[m]),
            decreases self.spans.len() - i,
        {
            if !(self.spans[i] == other.spans[i]) {
                return false;
            }
            i = i + 1;
        }
        true
    }
}

impl Eq for Layer {

}

impl vstd::std_specs::cmp::PartialEqSpecImpl for Layer {
    open spec fn obeys_eq_spec() -> bool {
        true
    }

    open spec fn eq_spec(&self, other: &Self) -> bool {
        &&& self.spec_size() == other.spec_size()
        &&& self.spec_spans().len() == other.spec_spans().len()
        &&& forall|i: int|
            0 <= i < self.spec_spans().len() ==> same_run(
                #[trigger] self.spec_spans()[i],
                other.spec_spans()[i],
            )
    }
}

impl Default for Layer {
    /// The empty layer: no runs, zero size.
    fn default() -> (r: Self)
        ensures
            r.wf(),
            r.spec_spans().len() == 0,
            r.spec_size() == (0u16, 0u16),
    {
        Layer { width: 0, height: 0, spans: Vec::new() }
    }
}

impl Annotate for Layer {
    closed spec fn spec_size(&self) -> (u16, u16) {
        (self.width, self.height)
    }

    fn get_size(&self) -> (r: (u16, u16))
        ensures
            r == self.spec_size(),
    {
        (self.width, self.height)
    }
}

} // verus!
