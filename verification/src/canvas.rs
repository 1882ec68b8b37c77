//! Canvases: z-ordered stacks of positioned layers, flattenable to a dense
//! view in ascending z order.

use vstd::prelude::*;
use vstd::view::View as _;

use crate::annot::Annot;
use crate::annot::Annotate;
use crate::annot::spec_fits;
use crate::cell::Cell;
use crate::layer::Layer;
use crate::layer::cell_at;
use crate::layer::covered;
use crate::view::View;
use crate::view::grid_idx;
use crate::view::lemma_grid_idx_bounds;
use crate::view::lemma_grid_idx_inj;
use crate::layer::lemma_cell_at_push;
use crate::layer::lemma_spans_wf_take;
use crate::layer::span_covers;
use crate::layer::span_cell;
use crate::layer::spans_wf;
use crate::layer::overlay_shifted;
use crate::layer::shapes;

verus! {

/// The z-index keys are strictly increasing.
pub open spec fn sorted_keys(ls: Seq<(usize, Annot<Layer>)>) -> bool {
    forall|i: int, j: int| 0 <= i < j < ls.len() ==> (#[trigger] ls[i]).0 < (#[trigger] ls[j]).0
}

/// Some entry carries the key `z`.
pub open spec fn has_key(ls: Seq<(usize, Annot<Layer>)>, z: usize) -> bool {
    exists|i: int| 0 <= i < ls.len() && (#[trigger] ls[i]).0 == z
}

/// The index of the entry with key `z`; unique under [`sorted_keys`].
pub open spec fn key_index(ls: Seq<(usize, Annot<Layer>)>, z: usize) -> int {
    choose|i: int| 0 <= i < ls.len() && (#[trigger] ls[i]).0 == z
}

/// The positioned layer stored under key `z`.
pub open spec fn layer_of(ls: Seq<(usize, Annot<Layer>)>, z: usize) -> Annot<Layer> {
    ls[key_index(ls, z)].1
}

/// With strictly increasing keys, an entry's key determines its index.
pub proof fn lemma_key_unique(ls: Seq<(usize, Annot<Layer>)>, i: int, j: int)
    requires
        sorted_keys(ls),
        0 <= i < ls.len(),
        0 <= j < ls.len(),
        ls[i].0 == ls[j].0,
    ensures
        i == j,
{
}

/// The cell a stack of positioned layers shows at the absolute point
/// `(x, y)`: the topmost layer whose runs cover the point wins.
pub open spec fn canvas_at(ls: Seq<(usize, Annot<Layer>)>, x: int, y: int) -> Option<Cell>
    decreases ls.len(),
{
    if ls.len() == 0 {
        None
    } else {
        let la = ls.last().1;
        if covered(la.spec_inner().spec_spans(), x - la.spec_x(), y - la.spec_y()) {
            cell_at(la.spec_inner().spec_spans(), x - la.spec_x(), y - la.spec_y())
        } else {
            canvas_at(ls.drop_last(), x, y)
        }
    }
}

/// The view `v` is the flattening of canvas `c`: it has the canvas's
/// dimensions and shows, at every point, the topmost covering layer's cell.
pub open spec fn is_flattening(c: Canvas, v: View) -> bool {
    &&& v.wf()
    &&& v.spec_size() == (c.spec_width(), c.spec_height())
    &&& forall|x: int, y: int|
        0 <= x < c.spec_width() && 0 <= y < c.spec_height() ==> #[trigger] v@[grid_idx(
            c.spec_width() as int,
            x,
            y,
        )] == canvas_at(c.spec_layers(), x, y)
}

/// Flattening is a function of the canvas alone: two views flattened from
/// the same canvas, with no mutation in between, agree in size and in every
/// cell.
pub proof fn lemma_flatten_deterministic(c: Canvas, v1: View, v2: View)
    requires
        is_flattening(c, v1),
        is_flattening(c, v2),
    ensures
        v1.spec_size() == v2.spec_size(),
        v1@ == v2@,
{
    let w = c.spec_width() as int;
    let h = c.spec_height() as int;
    assert forall|p: int| 0 <= p < v1@.len() implies v1@[p] == v2@[p] by {
        assert(w * h == v1@.len()) by (nonlinear_arith)
            requires
                v1@.len() == v1.spec_size().0 * v1.spec_size().1,
                v1.spec_size().0 == w,
                v1.spec_size().1 == h,
        ;
        assert(w > 0) by (nonlinear_arith)
            requires
                w * h > 0,
                w >= 0,
        ;
        let x = p % w;
        let y = p / w;
        vstd::arithmetic::div_mod::lemma_fundamental_div_mod(p, w);
        vstd::arithmetic::div_mod::lemma_mod_bound(p, w);
        assert(p == grid_idx(w, x, y));
        assert(0 <= y < h) by (nonlinear_arith)
            requires
                p == y * w + x,
                0 <= x < w,
                0 <= p < w * h,
        ;
        assert(v1@[grid_idx(w, x, y)] == canvas_at(c.spec_layers(), x, y));
        assert(v2@[grid_idx(w, x, y)] == canvas_at(c.spec_layers(), x, y));
    }
    assert(v1@.len() == v2@.len()) by (nonlinear_arith)
        requires
            v1@.len() == v1.spec_size().0 * v1.spec_size().1,
            v2@.len() == v2.spec_size().0 * v2.spec_size().1,
            v1.spec_size() == v2.spec_size(),
    ;
    assert(v1@ =~= v2@);
}

/// A z-ordered collection of positioned layers. Keys are unique; iteration
/// and flattening go from the lowest z upward, so higher z always wins.
#[derive(Debug)]
pub struct Canvas {
    front: usize,
    width: u16,
    height: u16,
    layers: Vec<(usize, Annot<Layer>)>,
}

impl Canvas {
    /// The stored `(z-index, layer)` pairs, in ascending key order.
    pub closed spec fn spec_layers(&self) -> Seq<(usize, Annot<Layer>)> {
        self.layers@
    }

    /// One past the highest z-index ever used.
    pub closed spec fn spec_front(&self) -> usize {
        self.front
    }

    /// The cached width: covers every layer's far column.
    pub closed spec fn spec_width(&self) -> u16 {
        self.width
    }

    /// The cached height: covers every layer's far row.
    pub closed spec fn spec_height(&self) -> u16 {
        self.height
    }

    /// The canvas invariant: keys strictly increase and stay below `front`,
    /// every stored layer is well formed, and every layer lies inside the
    /// cached bounds.
    pub open spec fn wf(&self) -> bool {
        &&& sorted_keys(self.spec_layers())
        &&& forall|i: int|
            0 <= i < self.spec_layers().len() ==> (#[trigger] self.spec_layers()[i]).0
                < self.spec_front()
        &&& forall|i: int|
            0 <= i < self.spec_layers().len()
                ==> (#[trigger] self.spec_layers()[i]).1.spec_inner().wf()
        &&& forall|i: int|
            0 <= i < self.spec_layers().len() ==> {
                let la = (#[trigger] self.spec_layers()[i]).1;
                &&& la.spec_x() + la.spec_inner().spec_size().0 <= self.spec_width()
                &&& la.spec_y() + la.spec_inner().spec_size().1 <= self.spec_height()
            }
    }

    /// Get the stored `(z-index, layer)` pairs, lowest z first.
    pub fn inner_vec(&self) -> (r: &Vec<(usize, Annot<Layer>)>)
        ensures
            r@ == self.spec_layers(),
    {
        &self.layers
    }

    /// Store `layer` under `z_index`, replacing any occupant, and grow the
    /// cached bounds and the front counter to cover it.
    #[verifier::rlimit(60)]
    fn apply_layer(&mut self, z_index: usize, layer: Annot<Layer>)
        requires
            old(self).wf(),
            layer.spec_inner().wf(),
            spec_fits(layer),
            z_index < usize::MAX,
        ensures
            final(self).wf(),
            has_key(final(self).spec_layers(), z_index),
            layer_of(final(self).spec_layers(), z_index) == layer,
            forall|z2: usize|
                z2 != z_index ==> #[trigger] has_key(final(self).spec_layers(), z2) == has_key(
                    old(self).spec_layers(),
                    z2,
                ),
            forall|z2: usize|
                z2 != z_index && has_key(old(self).spec_layers(), z2) ==> #[trigger] layer_of(
                    final(self).spec_layers(),
                    z2,
                ) == layer_of(old(self).spec_layers(), z2),
            final(self).spec_width() == (if old(self).spec_width() >= layer.spec_x()
                + layer.spec_inner().spec_size().0 {
                old(self).spec_width() as int
            } else {
                layer.spec_x() + layer.spec_inner().spec_size().0
            }),
            final(self).spec_height() == (if old(self).spec_height() >= layer.spec_y()
                + layer.spec_inner().spec_size().1 {
                old(self).spec_height() as int
            } else {
                layer.spec_y() + layer.spec_inner().spec_size().1
            }),
            final(self).spec_front() == (if old(self).spec_front() >= z_index + 1 {
                old(self).spec_front() as int
            } else {
                z_index + 1
            }),
            final(self).spec_layers().len() == old(self).spec_layers().len() + (if has_key(
                old(self).spec_layers(),
                z_index,
            ) {
                0int
            } else {
                1int
            }),
    {
        let ghost olds = self.spec_layers();
        let (layer_offset_x, layer_offset_y) = layer.base_pos();
        let (lw, lh) = layer.inner().get_size();
        let far_x = layer_offset_x + lw;
        let far_y = layer_offset_y + lh;
        if far_x > self.width {
            self.width = far_x;
        }
        if far_y > self.height {
            self.height = far_y;
        }
        if z_index + 1 > self.front {
            self.front = z_index + 1;
        }
        let mut i: usize = 0;
        while i < self.layers.len() && self.layers[i].0 < z_index
            invariant
                olds == self.spec_layers(),
                sorted_keys(olds),
                i <= olds.len(),
                forall|m: int| 0 <= m < i ==> (#[trigger] olds[m]).0 < z_index,
            decreases olds.len() - i,
        {
            i = i + 1;
        }
        let replaced = i < self.layers.len() && self.layers[i].0 == z_index;
        proof {
            if replaced {
                assert(has_key(olds, z_index));
            } else {
                if has_key(olds, z_index) {
                    let a = choose|a: int| 0 <= a < olds.len() && (#[trigger] olds[a]).0 == z_index;
                    assert(a >= i);
                    assert(i < olds.len());
                    if a > i as int {
                        assert(olds[i as int].0 < olds[a].0);
                    }
                    assert(false);
                }
            }
        }
        if replaced {
            self.layers[i] = (z_index, layer);
            proof {
                assert(self.spec_layers() =~= olds.update(i as int, (z_index, layer)));
            }
        } else {
            self.layers.insert(i, (z_index, layer));
        }
        proof {
            let fin = self.spec_layers();
            let iz = i as int;
            assert forall|a: int, b: int|
                0 <= a < b < fin.len() implies (#[trigger] fin[a]).0 < (#[trigger] fin[b]).0 by {
                if replaced {
                    assert(fin[a] == (if a == iz {
                        (z_index, layer)
                    } else {
                        olds[a]
                    }));
                    assert(fin[b] == (if b == iz {
                        (z_index, layer)
                    } else {
                        olds[b]
                    }));
                } else {
                    let a2: int = if a < iz {
                        a
                    } else {
                        a - 1
                    };
                    let b2: int = if b < iz {
                        b
                    } else {
                        b - 1
                    };
                    if a != iz {
                        assert(fin[a] == olds[a2]);
                    }
                    if b != iz {
                        assert(fin[b] == olds[b2]);
                    }
                    if a == iz {
                        assert(b > iz);
                        assert(olds[b2].0 >= z_index);
                        assert(olds[b2].0 != z_index);
                    }
                    if b == iz {
                        assert(a < iz);
                    }
                }
            }
            let me: int = iz;
            assert(fin[me] == (z_index, layer));
            assert(has_key(fin, z_index));
            lemma_key_unique(fin, me, key_index(fin, z_index));
            assert(layer_of(fin, z_index) == layer);
            assert forall|z2: usize|
                z2 != z_index implies #[trigger] has_key(fin, z2) == has_key(olds, z2) by {
                if has_key(fin, z2) {
                    let a = choose|a: int| 0 <= a < fin.len() && (#[trigger] fin[a]).0 == z2;
                    if replaced {
                        assert(a != me);
                        assert(fin[a] == olds[a]);
                        assert(has_key(olds, z2));
                    } else {
                        assert(a != me);
                        let a2: int = if a < me {
                            a
                        } else {
                            a - 1
                        };
                        assert(fin[a] == olds[a2]);
                        assert(has_key(olds, z2));
                    }
                }
                if has_key(olds, z2) {
                    let a = choose|a: int| 0 <= a < olds.len() && (#[trigger] olds[a]).0 == z2;
                    if replaced {
                        assert(a != me);
                        assert(fin[a] == olds[a]);
                        assert(has_key(fin, z2));
                    } else {
                        let a2: int = if a < me {
                            a
                        } else {
                            a + 1
                        };
                        assert(fin[a2] == olds[a]);
                        assert(has_key(fin, z2));
                    }
                }
            }
            assert forall|z2: usize|
                z2 != z_index && has_key(olds, z2) implies #[trigger] layer_of(fin, z2) == layer_of(
                olds,
                z2,
            ) by {
                let a = choose|a: int| 0 <= a < olds.len() && (#[trigger] olds[a]).0 == z2;
                lemma_key_unique(olds, a, key_index(olds, z2));
                if replaced {
                    assert(fin[a] == olds[a]);
                    lemma_key_unique(fin, a, key_index(fin, z2));
                } else {
                    let a2: int = if a < me {
                        a
                    } else {
                        a + 1
                    };
                    assert(fin[a2] == olds[a]);
                    lemma_key_unique(fin, a2, key_index(fin, z2));
                }
            }
            assert forall|a: int|
                0 <= a < fin.len() implies (#[trigger] fin[a]).0 < self.spec_front() && fin[
                a].1.spec_inner().wf() && fin[a].1.spec_x() + fin[a].1.spec_inner().spec_size().0
                <= self.spec_width() && fin[a].1.spec_y() + fin[a].1.spec_inner().spec_size().1
                <= self.spec_height() by {
                if replaced {
                    if a != me {
                        assert(fin[a] == olds[a]);
                    }
                } else {
                    if a != me {
                        let a2: int = if a < me {
                            a
                        } else {
                            a - 1
                        };
                        assert(fin[a] == olds[a2]);
                    }
                }
            }
        }
    }

    /// Stack `layer` on top: store it at the current front index.
    pub fn overlap_layer(&mut self, layer: Annot<Layer>)
        requires
            old(self).wf(),
            layer.spec_inner().wf(),
            spec_fits(layer),
            old(self).spec_front() < usize::MAX,
        ensures
            final(self).wf(),
            has_key(final(self).spec_layers(), old(self).spec_front()),
            layer_of(final(self).spec_layers(), old(self).spec_front()) == layer,
            forall|z2: usize|
                z2 != old(self).spec_front() ==> #[trigger] has_key(
                    final(self).spec_layers(),
                    z2,
                ) == has_key(old(self).spec_layers(), z2),
            forall|z2: usize|
                z2 != old(self).spec_front() && has_key(old(self).spec_layers(), z2)
                    ==> #[trigger] layer_of(final(self).spec_layers(), z2) == layer_of(
                    old(self).spec_layers(),
                    z2,
                ),
            final(self).spec_front() == old(self).spec_front() + 1,
            final(self).spec_layers().len() == old(self).spec_layers().len() + 1,
            final(self).spec_width() == (if old(self).spec_width() >= layer.spec_x()
                + layer.spec_inner().spec_size().0 {
                old(self).spec_width() as int
            } else {
                layer.spec_x() + layer.spec_inner().spec_size().0
            }),
            final(self).spec_height() == (if old(self).spec_height() >= layer.spec_y()
                + layer.spec_inner().spec_size().1 {
                old(self).spec_height() as int
            } else {
                layer.spec_y() + layer.spec_inner().spec_size().1
            }),
    {
        proof {
            if has_key(self.spec_layers(), self.spec_front()) {
                let a = choose|a: int|
                    0 <= a < self.spec_layers().len() && (#[trigger] self.spec_layers()[a]).0
                        == self.spec_front();
                assert(self.spec_layers()[a].0 < self.spec_front());
            }
        }
        let front = self.front;
        self.apply_layer(front, layer);
    }

    /// Store `layer` under `z_index`, unconditionally replacing whatever
    /// occupies that index.
    pub fn insert(&mut self, z_index: usize, layer: Annot<Layer>)
        requires
            old(self).wf(),
            layer.spec_inner().wf(),
            spec_fits(layer),
            z_index < usize::MAX,
        ensures
            final(self).wf(),
            has_key(final(self).spec_layers(), z_index),
            layer_of(final(self).spec_layers(), z_index) == layer,
            forall|z2: usize|
                z2 != z_index ==> #[trigger] has_key(final(self).spec_layers(), z2) == has_key(
                    old(self).spec_layers(),
                    z2,
                ),
            forall|z2: usize|
                z2 != z_index && has_key(old(self).spec_layers(), z2) ==> #[trigger] layer_of(
                    final(self).spec_layers(),
                    z2,
                ) == layer_of(old(self).spec_layers(), z2),
            final(self).spec_front() == (if old(self).spec_front() >= z_index + 1 {
                old(self).spec_front() as int
            } else {
                z_index + 1
            }),
            final(self).spec_width() == (if old(self).spec_width() >= layer.spec_x()
                + layer.spec_inner().spec_size().0 {
                old(self).spec_width() as int
            } else {
                layer.spec_x() + layer.spec_inner().spec_size().0
            }),
            final(self).spec_height() == (if old(self).spec_height() >= layer.spec_y()
                + layer.spec_inner().spec_size().1 {
                old(self).spec_height() as int
            } else {
                layer.spec_y() + layer.spec_inner().spec_size().1
            }),
    {
        self.apply_layer(z_index, layer);
    }
}

impl Canvas {
    /// The index at which key `z` is stored, if it is present.
    fn find_key_index(&self, z: usize) -> (r: Option<usize>)
        ensures
            r matches Some(i) ==> i < self.spec_layers().len() && self.spec_layers()[i as int].0
                == z,
            r is None ==> !has_key(self.spec_layers(), z),
    {
        let mut i: usize = 0;
        while i < self.layers.len()
            invariant
                i <= self.spec_layers().len(),
                forall|m: int| 0 <= m < i ==> (#[trigger] self.spec_layers()[m]).0 != z,
            decreases self.spec_layers().len() - i,
        {
            if self.layers[i].0 == z {
                return Some(i);
            }
            i = i + 1;
        }
        proof {
            if has_key(self.spec_layers(), z) {
                let a = choose|a: int|
                    0 <= a < self.spec_layers().len() && (#[trigger] self.spec_layers()[a]).0 == z;
            }
        }
        None
    }

    /// Merge `new_layer` into the layer stored at `z_index`, the new layer
    /// winning each conflict; when the index is free, store it as it is.
    pub fn merge(&mut self, z_index: usize, new_layer: Annot<Layer>)
        requires
            old(self).wf(),
            new_layer.spec_inner().wf(),
            spec_fits(new_layer),
            z_index < usize::MAX,
            has_key(old(self).spec_layers(), z_index) ==> {
                let occ = layer_of(old(self).spec_layers(), z_index);
                let mx = (if occ.spec_x() <= new_layer.spec_x() {
                    occ.spec_x()
                } else {
                    new_layer.spec_x()
                });
                let my = (if occ.spec_y() <= new_layer.spec_y() {
                    occ.spec_y()
                } else {
                    new_layer.spec_y()
                });
                let mw = (if occ.spec_inner().spec_size().0 >= new_layer.spec_x()
                    + new_layer.spec_inner().spec_size().0 {
                    occ.spec_inner().spec_size().0 as int
                } else {
                    new_layer.spec_x() + new_layer.spec_inner().spec_size().0
                });
                let mh = (if occ.spec_inner().spec_size().1 >= new_layer.spec_y()
                    + new_layer.spec_inner().spec_size().1 {
                    occ.spec_inner().spec_size().1 as int
                } else {
                    new_layer.spec_y() + new_layer.spec_inner().spec_size().1
                });
                mx + mw <= u16::MAX && my + mh <= u16::MAX
            },
        ensures
            final(self).wf(),
            has_key(final(self).spec_layers(), z_index),
            forall|z2: usize|
                z2 != z_index ==> #[trigger] has_key(final(self).spec_layers(), z2) == has_key(
                    old(self).spec_layers(),
                    z2,
                ),
            forall|z2: usize|
                z2 != z_index && has_key(old(self).spec_layers(), z2) ==> #[trigger] layer_of(
                    final(self).spec_layers(),
                    z2,
                ) == layer_of(old(self).spec_layers(), z2),
            !has_key(old(self).spec_layers(), z_index) ==> layer_of(
                final(self).spec_layers(),
                z_index,
            ) == new_layer,
            !has_key(old(self).spec_layers(), z_index) ==> final(self).spec_width() == (if old(
                self,
            ).spec_width() >= new_layer.spec_x() + new_layer.spec_inner().spec_size().0 {
                old(self).spec_width() as int
            } else {
                new_layer.spec_x() + new_layer.spec_inner().spec_size().0
            }) && final(self).spec_height() == (if old(self).spec_height() >= new_layer.spec_y()
                + new_layer.spec_inner().spec_size().1 {
                old(self).spec_height() as int
            } else {
                new_layer.spec_y() + new_layer.spec_inner().spec_size().1
            }),
            final(self).spec_width() >= old(self).spec_width(),
            final(self).spec_height() >= old(self).spec_height(),
            has_key(old(self).spec_layers(), z_index) ==> {
                let occ = layer_of(old(self).spec_layers(), z_index);
                let mx = (if occ.spec_x() <= new_layer.spec_x() {
                    occ.spec_x() as int
                } else {
                    new_layer.spec_x() as int
                });
                let my = (if occ.spec_y() <= new_layer.spec_y() {
                    occ.spec_y() as int
                } else {
                    new_layer.spec_y() as int
                });
                let mw = (if occ.spec_inner().spec_size().0 >= new_layer.spec_x()
                    + new_layer.spec_inner().spec_size().0 {
                    occ.spec_inner().spec_size().0 as int
                } else {
                    new_layer.spec_x() + new_layer.spec_inner().spec_size().0
                });
                let mh = (if occ.spec_inner().spec_size().1 >= new_layer.spec_y()
                    + new_layer.spec_inner().spec_size().1 {
                    occ.spec_inner().spec_size().1 as int
                } else {
                    new_layer.spec_y() + new_layer.spec_inner().spec_size().1
                });
                &&& final(self).spec_width() <= (if old(self).spec_width() >= mx + mw {
                    old(self).spec_width() as int
                } else {
                    mx + mw
                })
                &&& final(self).spec_height() <= (if old(self).spec_height() >= my + mh {
                    old(self).spec_height() as int
                } else {
                    my + mh
                })
            },
            has_key(old(self).spec_layers(), z_index) ==> {
                let occ = layer_of(old(self).spec_layers(), z_index);
                let m = layer_of(final(self).spec_layers(), z_index);
                &&& m.spec_inner().wf()
                &&& m.spec_x() == (if occ.spec_x() <= new_layer.spec_x() {
                    occ.spec_x()
                } else {
                    new_layer.spec_x()
                })
                &&& m.spec_y() == (if occ.spec_y() <= new_layer.spec_y() {
                    occ.spec_y()
                } else {
                    new_layer.spec_y()
                })
                &&& shapes(m.spec_inner().spec_spans()) == overlay_shifted(
                    shapes(occ.spec_inner().spec_spans()),
                    shapes(new_layer.spec_inner().spec_spans()),
                    new_layer.spec_x(),
                    new_layer.spec_y(),
                )
                &&& forall|x: int, y: int|
                    #[trigger] cell_at(m.spec_inner().spec_spans(), x, y) == (if covered(
                        new_layer.spec_inner().spec_spans(),
                        x - new_layer.spec_x(),
                        y - new_layer.spec_y(),
                    ) {
                        cell_at(
                            new_layer.spec_inner().spec_spans(),
                            x - new_layer.spec_x(),
                            y - new_layer.spec_y(),
                        )
                    } else {
                        cell_at(occ.spec_inner().spec_spans(), x, y)
                    })
            },
    {
        let found = self.find_key_index(z_index);
        match found {
            None => {
                self.apply_layer(z_index, new_layer);
            },
            Some(i) => {
                proof {
                    lemma_key_unique(
                        self.spec_layers(),
                        i as int,
                        key_index(self.spec_layers(), z_index),
                    );
                }
                let merged = {
                    let occ = &self.layers[i].1;
                    occ.inner().overlap(occ.base_pos(), new_layer)
                };
                self.apply_layer(z_index, merged);
            },
        }
    }

    /// Merge at an occupied index, or store the layer at a free one.
    pub fn insert_or_merge(&mut self, z_index: usize, layer: Annot<Layer>)
        requires
            old(self).wf(),
            layer.spec_inner().wf(),
            spec_fits(layer),
            z_index < usize::MAX,
            has_key(old(self).spec_layers(), z_index) ==> {
                let occ = layer_of(old(self).spec_layers(), z_index);
                let mx = (if occ.spec_x() <= layer.spec_x() {
                    occ.spec_x()
                } else {
                    layer.spec_x()
                });
                let my = (if occ.spec_y() <= layer.spec_y() {
                    occ.spec_y()
                } else {
                    layer.spec_y()
                });
                let mw = (if occ.spec_inner().spec_size().0 >= layer.spec_x()
                    + layer.spec_inner().spec_size().0 {
                    occ.spec_inner().spec_size().0 as int
                } else {
                    layer.spec_x() + layer.spec_inner().spec_size().0
                });
                let mh = (if occ.spec_inner().spec_size().1 >= layer.spec_y()
                    + layer.spec_inner().spec_size().1 {
                    occ.spec_inner().spec_size().1 as int
                } else {
                    layer.spec_y() + layer.spec_inner().spec_size().1
                });
                mx + mw <= u16::MAX && my + mh <= u16::MAX
            },
        ensures
            final(self).wf(),
            has_key(final(self).spec_layers(), z_index),
            forall|z2: usize|
                z2 != z_index ==> #[trigger] has_key(final(self).spec_layers(), z2) == has_key(
                    old(self).spec_layers(),
                    z2,
                ),
            forall|z2: usize|
                z2 != z_index && has_key(old(self).spec_layers(), z2) ==> #[trigger] layer_of(
                    final(self).spec_layers(),
                    z2,
                ) == layer_of(old(self).spec_layers(), z2),
            !has_key(old(self).spec_layers(), z_index) ==> layer_of(
                final(self).spec_layers(),
                z_index,
            ) == layer,
            !has_key(old(self).spec_layers(), z_index) ==> final(self).spec_width() == (if old(
                self,
            ).spec_width() >= layer.spec_x() + layer.spec_inner().spec_size().0 {
                old(self).spec_width() as int
            } else {
                layer.spec_x() + layer.spec_inner().spec_size().0
            }) && final(self).spec_height() == (if old(self).spec_height() >= layer.spec_y()
                + layer.spec_inner().spec_size().1 {
                old(self).spec_height() as int
            } else {
                layer.spec_y() + layer.spec_inner().spec_size().1
            }),
            final(self).spec_width() >= old(self).spec_width(),
            final(self).spec_height() >= old(self).spec_height(),
            has_key(old(self).spec_layers(), z_index) ==> {
                let occ = layer_of(old(self).spec_layers(), z_index);
                let mx = (if occ.spec_x() <= layer.spec_x() {
                    occ.spec_x() as int
                } else {
                    layer.spec_x() as int
                });
                let my = (if occ.spec_y() <= layer.spec_y() {
                    occ.spec_y() as int
                } else {
                    layer.spec_y() as int
                });
                let mw = (if occ.spec_inner().spec_size().0 >= layer.spec_x()
                    + layer.spec_inner().spec_size().0 {
                    occ.spec_inner().spec_size().0 as int
                } else {
                    layer.spec_x() + layer.spec_inner().spec_size().0
                });
                let mh = (if occ.spec_inner().spec_size().1 >= layer.spec_y()
                    + layer.spec_inner().spec_size().1 {
                    occ.spec_inner().spec_size().1 as int
                } else {
                    layer.spec_y() + layer.spec_inner().spec_size().1
                });
                &&& final(self).spec_width() <= (if old(self).spec_width() >= mx + mw {
                    old(self).spec_width() as int
                } else {
                    mx + mw
                })
                &&& final(self).spec_height() <= (if old(self).spec_height() >= my + mh {
                    old(self).spec_height() as int
                } else {
                    my + mh
                })
            },
            has_key(old(self).spec_layers(), z_index) ==> {
                let occ = layer_of(old(self).spec_layers(), z_index);
                let m = layer_of(final(self).spec_layers(), z_index);
                &&& m.spec_inner().wf()
                &&& shapes(m.spec_inner().spec_spans()) == overlay_shifted(
                    shapes(occ.spec_inner().spec_spans()),
                    shapes(layer.spec_inner().spec_spans()),
                    layer.spec_x(),
                    layer.spec_y(),
                )
                &&& forall|x: int, y: int|
                    #[trigger] cell_at(m.spec_inner().spec_spans(), x, y) == (if covered(
                        layer.spec_inner().spec_spans(),
                        x - layer.spec_x(),
                        y - layer.spec_y(),
                    ) {
                        cell_at(
                            layer.spec_inner().spec_spans(),
                            x - layer.spec_x(),
                            y - layer.spec_y(),
                        )
                    } else {
                        cell_at(occ.spec_inner().spec_spans(), x, y)
                    })
            },
    {
        let found = self.find_key_index(z_index);
        if found.is_some() {
            self.merge(z_index, layer);
        } else {
            self.insert(z_index, layer);
        }
    }
}

impl Canvas {
    /// Flatten the canvas: iterate layers from the lowest z upward and copy
    /// every run's cells into a dense grid, higher z winning cell for cell.
    pub fn create_view(&self) -> (r: View)
        requires
            self.wf(),
        ensures
            r.wf(),
            r.spec_size() == (self.spec_width(), self.spec_height()),
            forall|x: int, y: int|
                0 <= x < self.spec_width() && 0 <= y < self.spec_height() ==> #[trigger] r@[grid_idx(
                    self.spec_width() as int,
                    x,
                    y,
                )] == canvas_at(self.spec_layers(), x, y),
            is_flattening(*self, r),
    {
        let ghost ls = self.spec_layers();
        let ghost gw = self.spec_width() as int;
        let ghost gh = self.spec_height() as int;
        proof {
            assert((self.width as int) * (self.height as int) <= 0xfffe_0001int)
                by (nonlinear_arith)
                requires
                    self.width <= 0xffff,
                    self.height <= 0xffff,
            ;
            assert(usize::MAX >= 0xffff_ffffnat);
        }
        let total = (self.width as usize) * (self.height as usize);
        let mut grid: Vec<Option<Cell>> = vec![None; total];
        proof {
            assert(ls.take(0).len() == 0);
            assert forall|x: int, y: int|
                0 <= x < gw && 0 <= y < gh implies #[trigger] grid@[grid_idx(gw, x, y)]
                == canvas_at(ls.take(0), x, y) by {
                lemma_grid_idx_bounds(gw, gh, x, y);
            }
        }
        let mut li: usize = 0;
        while li < self.layers.len()
            invariant
                self.wf(),
                ls == self.spec_layers(),
                gw == self.spec_width() as int,
                gh == self.spec_height() as int,
                total == gw * gh,
                grid@.len() == total,
                li <= ls.len(),
                forall|x: int, y: int|
                    0 <= x < gw && 0 <= y < gh ==> #[trigger] grid@[grid_idx(gw, x, y)]
                        == canvas_at(ls.take(li as int), x, y),
            decreases ls.len() - li,
        {
            let ghost lig = li as int;
            let la = &self.layers[li].1;
            let (ox, oy) = la.base_pos();
            let ghost sps = la.spec_inner().spec_spans();
            let spans = la.inner().inner();
            proof {
                assert(la.spec_inner().wf());
            }
            let mut si: usize = 0;
            while si < spans.len()
                invariant
                    self.wf(),
                    ls == self.spec_layers(),
                    gw == self.spec_width() as int,
                    gh == self.spec_height() as int,
                    total == gw * gh,
                    grid@.len() == total,
                    0 <= lig < ls.len(),
                    sps == ls[lig].1.spec_inner().spec_spans(),
                    spans@ == sps,
                    ls[lig].1.spec_inner().wf(),
                    ox == ls[lig].1.spec_x(),
                    oy == ls[lig].1.spec_y(),
                    ox + ls[lig].1.spec_inner().spec_size().0 <= gw,
                    oy + ls[lig].1.spec_inner().spec_size().1 <= gh,
                    si <= sps.len(),
                    forall|x: int, y: int|
                        0 <= x < gw && 0 <= y < gh ==> #[trigger] grid@[grid_idx(gw, x, y)] == (
                        if covered(sps.take(si as int), x - ox, y - oy) {
                            cell_at(sps.take(si as int), x - ox, y - oy)
                        } else {
                            canvas_at(ls.take(lig), x, y)
                        }),
                decreases sps.len() - si,
            {
                let ghost sig = si as int;
                let sp = &spans[si];
                let (sx, sy) = sp.base_pos();
                proof {
                    assert(spans_wf(sps));
                    assert(sps[sig].spec_inner().wf());
                    assert(sps[sig].spec_inner().spec_len() > 0);
                    assert(crate::layer::span_in_bounds(
                        sps[sig],
                        ls[lig].1.spec_inner().spec_size().0,
                        ls[lig].1.spec_inner().spec_size().1,
                    ));
                }
                let asx = ox + sx;
                let asy = oy + sy;
                let cells = sp.inner().to_vec();
                let mut k: usize = 0;
                while k < cells.len()
                    invariant
                        gw == self.spec_width() as int,
                        gh == self.spec_height() as int,
                        total == gw * gh,
                        grid@.len() == total,
                        0 <= lig < ls.len(),
                        ls == self.spec_layers(),
                        self.wf(),
                        sps == ls[lig].1.spec_inner().spec_spans(),
                        0 <= sig < sps.len(),
                        cells@ == sps[sig].spec_inner()@,
                        asx == ox + sps[sig].spec_x(),
                        asy == oy + sps[sig].spec_y(),
                        ox == ls[lig].1.spec_x(),
                        oy == ls[lig].1.spec_y(),
                        asx + cells@.len() <= gw,
                        0 <= asy < gh,
                        k <= cells@.len(),
                        forall|x: int, y: int|
                            0 <= x < gw && 0 <= y < gh ==> #[trigger] grid@[grid_idx(gw, x, y)]
                                == (if y == asy && asx <= x < asx + k {
                                Some(cells@[x - asx])
                            } else if covered(sps.take(sig), x - ox, y - oy) {
                                cell_at(sps.take(sig), x - ox, y - oy)
                            } else {
                                canvas_at(ls.take(lig), x, y)
                            }),
                    decreases cells@.len() - k,
                {
                    proof {
                        lemma_grid_idx_bounds(gw, gh, asx + k, asy as int);
                        assert((asy as int) * gw + (asx + k) == grid_idx(gw, asx + k, asy as int));
                        assert((asy as int) * gw <= (gh - 1) * gw <= gw * gh - gw)
                            by (nonlinear_arith)
                            requires
                                0 <= asy < gh,
                                gw >= 0,
                        ;
                    }
                    let idx = (asy as usize) * (self.width as usize) + (asx as usize + k);
                    let ghost oldgrid = grid@;
                    grid[idx] = Some(cells[k]);
                    k = k + 1;
                    proof {
                        assert forall|x: int, y: int|
                            0 <= x < gw && 0 <= y < gh implies #[trigger] grid@[grid_idx(gw, x, y)]
                            == (if y == asy && asx <= x < asx + k {
                            Some(cells@[x - asx])
                        } else if covered(sps.take(sig), x - ox, y - oy) {
                            cell_at(sps.take(sig), x - ox, y - oy)
                        } else {
                            canvas_at(ls.take(lig), x, y)
                        }) by {
                            lemma_grid_idx_inj(gw, x, y, asx + k - 1, asy as int);
                            lemma_grid_idx_bounds(gw, gh, x, y);
                        }
                    }
                }
                si = si + 1;
                proof {
                    lemma_spans_wf_take(sps, sig + 1);
                    assert(sps.take(sig + 1) =~= sps.take(sig).push(sps[sig]));
                    lemma_cell_at_push(sps.take(sig), sps[sig]);
                    assert forall|x: int, y: int|
                        0 <= x < gw && 0 <= y < gh implies #[trigger] grid@[grid_idx(gw, x, y)]
                        == (if covered(sps.take(si as int), x - ox, y - oy) {
                        cell_at(sps.take(si as int), x - ox, y - oy)
                    } else {
                        canvas_at(ls.take(lig), x, y)
                    }) by {
                        assert(cell_at(sps.take(sig + 1), x - ox, y - oy) == (if span_covers(
                            sps[sig],
                            x - ox,
                            y - oy,
                        ) {
                            Some(span_cell(sps[sig], x - ox))
                        } else {
                            cell_at(sps.take(sig), x - ox, y - oy)
                        }));
                        assert(span_covers(sps[sig], x - ox, y - oy) <==> (y == asy && asx <= x
                            < asx + cells@.len()));
                        if span_covers(sps[sig], x - ox, y - oy) {
                            assert(span_cell(sps[sig], x - ox) == cells@[x - asx]);
                            assert(covered(sps.take(sig + 1), x - ox, y - oy)) by {
                                assert(sps.take(sig + 1)[sig] == sps[sig]);
                            }
                        } else {
                            if covered(sps.take(sig + 1), x - ox, y - oy) {
                                let m = choose|m: int|
                                    0 <= m < sps.take(sig + 1).len() && span_covers(
                                        #[trigger] sps.take(sig + 1)[m],
                                        x - ox,
                                        y - oy,
                                    );
                                assert(m < sig);
                                assert(sps.take(sig)[m] == sps.take(sig + 1)[m]);
                                assert(covered(sps.take(sig), x - ox, y - oy));
                            }
                        }
                    }
                }
            }
            li = li + 1;
            proof {
                assert(sps.take(sps.len() as int) =~= sps);
                assert(ls.take(lig + 1).drop_last() =~= ls.take(lig));
                assert(ls.take(lig + 1).last() == ls[lig]);
                assert forall|x: int, y: int|
                    0 <= x < gw && 0 <= y < gh implies #[trigger] grid@[grid_idx(gw, x, y)]
                    == canvas_at(ls.take(li as int), x, y) by {
                    assert(canvas_at(ls.take(lig + 1), x, y) == (if covered(sps, x - ox, y - oy) {
                        cell_at(sps, x - ox, y - oy)
                    } else {
                        canvas_at(ls.take(lig), x, y)
                    }));
                }
            }
        }
        proof {
            assert(ls.take(ls.len() as int) =~= ls);
        }
        View::new(self.width, self.height, grid)
    }
}

/// Two stored canvas entries agree: same key, same layer placement, and
/// run-for-run the same placed content.
pub open spec fn same_entry(a: (usize, Annot<Layer>), b: (usize, Annot<Layer>)) -> bool {
    &&& a.0 == b.0
    &&& a.1.spec_x() == b.1.spec_x()
    &&& a.1.spec_y() == b.1.spec_y()
    &&& a.1.spec_inner().spec_size() == b.1.spec_inner().spec_size()
    &&& a.1.spec_inner().spec_spans().len() == b.1.spec_inner().spec_spans().len()
    &&& forall|i: int|
        0 <= i < a.1.spec_inner().spec_spans().len() ==> crate::layer::same_run(
            #[trigger] a.1.spec_inner().spec_spans()[i],
            b.1.spec_inner().spec_spans()[i],
        )
}

impl PartialEq for Canvas {
    fn eq(&self, other: &Self) -> (r: bool) {
        if self.front != other.front || self.width != other.width || self.height != other.height
            || self.layers.len() != other.layers.len() {
            return false;
        }
        let mut i: usize = 0;
        while i < self.layers.len()
            invariant
                i <= self.layers.len(),
                self.layers.len() == other.layers.len(),
                self.spec_front() == other.spec_front(),
                self.spec_width() == other.spec_width(),
                self.spec_height() == other.spec_height(),
                forall|m: int|
                    0 <= m < i ==> same_entry(
                        #[trigger] self.spec_layers()[m],
                        other.spec_layers()[m],
                    ),
            decreases self.layers.len() - i,
        {
            if self.layers[i].0 != other.layers[i].0 {
                return false;
            }
            if !(self.layers[i].1 == other.layers[i].1) {
                return false;
            }
            i = i + 1;
        }
        true
    }
}

impl Eq for Canvas {

}

impl vstd::std_specs::cmp::PartialEqSpecImpl for Canvas {
    open spec fn obeys_eq_spec() -> bool {
        true
    }

    open spec fn eq_spec(&self, other: &Self) -> bool {
        &&& self.spec_front() == other.spec_front()
        &&& self.spec_width() == other.spec_width()
        &&& self.spec_height() == other.spec_height()
        &&& self.spec_layers().len() == other.spec_layers().len()
        &&& forall|i: int|
            0 <= i < self.spec_layers().len() ==> same_entry(
                #[trigger] self.spec_layers()[i],
                other.spec_layers()[i],
            )
    }
}

impl Default for Canvas {
    /// The empty canvas: no layers, zero size, front at zero.
    fn default() -> (r: Self)
        ensures
            r.wf(),
            r.spec_layers().len() == 0,
            r.spec_front() == 0,
            r.spec_width() == 0,
            r.spec_height() == 0,
    {
        Canvas { front: 0, width: 0, height: 0, layers: Vec::new() }
    }
}

} // verus!
