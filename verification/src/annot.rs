//! Positioned boxes: a payload bound to an absolute base coordinate, with
//! the axis-aligned overlap geometry the rest of the engine is built on.

use vstd::prelude::*;

verus! {

use vstd::std_specs::cmp::PartialEqSpec;

/// A payload annotated with a base position on the terminal grid.
#[derive(Clone, Copy, Debug)]
pub struct Annot<T> {
    base_x: u16,
    base_y: u16,
    inner: T,
}

impl<T> Annot<T> {
    /// The base column of this annotation.
    pub closed spec fn spec_x(&self) -> u16 {
        self.base_x
    }

    /// The base row of this annotation.
    pub closed spec fn spec_y(&self) -> u16 {
        self.base_y
    }

    /// The annotated payload.
    pub closed spec fn spec_inner(&self) -> T {
        self.inner
    }

    /// Wrap a payload with a base position.
    pub fn new(base: (u16, u16), inner: T) -> (r: Self)
        ensures
            r.spec_x() == base.0,
            r.spec_y() == base.1,
            r.spec_inner() == inner,
    {
        Self { base_x: base.0, base_y: base.1, inner }
    }

    /// Returns the base position.
    pub fn base_pos(&self) -> (r: (u16, u16))
        ensures
            r == (self.spec_x(), self.spec_y()),
    {
        (self.base_x, self.base_y)
    }

    /// Borrow the payload.
    pub fn inner(&self) -> (r: &T)
        ensures
            *r == self.spec_inner(),
    {
        &self.inner
    }

    /// Borrow the payload mutably.
    pub fn inner_mut(&mut self) -> (r: &mut T)
        ensures
            *r == old(self).spec_inner(),
            final(self).spec_x() == old(self).spec_x(),
            final(self).spec_y() == old(self).spec_y(),
            final(self).spec_inner() == *final(r),
    {
        &mut self.inner
    }

    /// Unwrap to the payload.
    pub fn into_inner(self) -> (r: T)
        ensures
            r == self.spec_inner(),
    {
        self.inner
    }

    /// Move the base position to whatever `f` maps the current one to.
    pub fn rebase<F: Fn(u16, u16) -> (u16, u16)>(&mut self, f: F)
        requires
            call_requires(f, (old(self).spec_x(), old(self).spec_y())),
        ensures
            final(self).spec_inner() == old(self).spec_inner(),
            call_ensures(
                f,
                (old(self).spec_x(), old(self).spec_y()),
                (final(self).spec_x(), final(self).spec_y()),
            ),
    {
        let (x, y) = f(self.base_x, self.base_y);
        self.base_x = x;
        self.base_y = y;
    }
}

/// Width of the annotated payload.
pub open spec fn spec_width<T: Annotate>(a: Annot<T>) -> u16 {
    a.spec_inner().spec_size().0
}

/// Height of the annotated payload.
pub open spec fn spec_height<T: Annotate>(a: Annot<T>) -> u16 {
    a.spec_inner().spec_size().1
}

/// A box is empty when either dimension is zero; empty boxes conflict with
/// nothing.
pub open spec fn spec_is_empty<T: Annotate>(a: Annot<T>) -> bool {
    spec_width(a) == 0 || spec_height(a) == 0
}

/// Strict axis-aligned overlap: edges that merely touch do not conflict,
/// and empty boxes never conflict.
pub open spec fn conflicts<T: Annotate, A: Annotate>(a: Annot<T>, b: Annot<A>) -> bool {
    &&& !spec_is_empty(a)
    &&& !spec_is_empty(b)
    &&& a.spec_x() + spec_width(a) > b.spec_x()
    &&& b.spec_x() + spec_width(b) > a.spec_x()
    &&& a.spec_y() + spec_height(a) > b.spec_y()
    &&& b.spec_y() + spec_height(b) > a.spec_y()
}

/// The point `(x, y)` lies inside the box.
pub open spec fn contains_point<T: Annotate>(a: Annot<T>, x: u16, y: u16) -> bool {
    &&& !spec_is_empty(a)
    &&& a.spec_x() <= x < a.spec_x() + spec_width(a)
    &&& a.spec_y() <= y < a.spec_y() + spec_height(a)
}

/// The box's far corner is representable in 16-bit coordinates.
pub open spec fn spec_fits<T: Annotate>(a: Annot<T>) -> bool {
    &&& a.spec_x() + spec_width(a) <= u16::MAX
    &&& a.spec_y() + spec_height(a) <= u16::MAX
}

impl<T: Annotate> Annot<T> {
    /// Returns the payload's width.
    pub fn width(&self) -> (r: u16)
        ensures
            r == spec_width(*self),
    {
        self.inner.width()
    }

    /// Returns the payload's height.
    pub fn height(&self) -> (r: u16)
        ensures
            r == spec_height(*self),
    {
        self.inner.height()
    }

    /// Returns `true` when either dimension of the payload is zero.
    pub fn is_empty(&self) -> (r: bool)
        ensures
            r == spec_is_empty(*self),
    {
        let (w, h) = self.inner.get_size();
        w == 0 || h == 0
    }

    /// Returns the inclusive far corner, clamped so a zero-size box still
    /// reports a point.
    pub fn inner_apex_pos(&self) -> (r: (u16, u16))
        requires
            self.spec_x() + spec_width(*self) <= u16::MAX + 1,
            self.spec_y() + spec_height(*self) <= u16::MAX + 1,
        ensures
            r.0 == self.spec_x() + (if spec_width(*self) == 0 { 1int } else {
                spec_width(*self) as int
            }) - 1,
            r.1 == self.spec_y() + (if spec_height(*self) == 0 { 1int } else {
                spec_height(*self) as int
            }) - 1,
    {
        let (w, h) = self.inner.get_size();
        let w: u16 = if w == 0 { 1 } else { w };
        let h: u16 = if h == 0 { 1 } else { h };
        let ax = (self.base_x as u32 + w as u32 - 1) as u16;
        let ay = (self.base_y as u32 + h as u32 - 1) as u16;
        (ax, ay)
    }

    /// Returns the exclusive far corner, `base + size`.
    pub fn outer_apex_pos(&self) -> (r: (u16, u16))
        requires
            spec_fits(*self),
        ensures
            r.0 == self.spec_x() + spec_width(*self),
            r.1 == self.spec_y() + spec_height(*self),
    {
        let (w, h) = self.inner.get_size();
        (self.base_x + w, self.base_y + h)
    }

    /// Returns `true` when `self` and `other` overlap strictly.
    pub fn is_conflict<A: Annotate>(&self, other: &Annot<A>) -> (r: bool)
        ensures
            r == conflicts(*self, *other),
    {
        if self.is_empty() || other.is_empty() {
            return false;
        }
        let (sw, sh) = self.inner.get_size();
        let (ow, oh) = other.inner().get_size();
        let (ox, oy) = other.base_pos();
        (self.base_x as u32 + sw as u32 > ox as u32) && (ox as u32 + ow as u32
            > self.base_x as u32) && (self.base_y as u32 + sh as u32 > oy as u32) && (oy as u32
            + oh as u32 > self.base_y as u32)
    }

    /// Returns `true` when `(rel_x, rel_y)` lies inside the box, phrased as a
    /// conflict test against a synthetic one-by-one box at that point.
    pub fn contains_pos(&self, rel_x: u16, rel_y: u16) -> (r: bool)
        ensures
            r == contains_point(*self, rel_x, rel_y),
    {
        let dummy: Annot<Rect> = Rect::new(1, 1).annotate((rel_x, rel_y));
        self.is_conflict(&dummy)
    }
}

impl<T: PartialEq> PartialEq for Annot<T> {
    fn eq(&self, other: &Self) -> (r: bool) {
        self.base_x == other.base_x && self.base_y == other.base_y && self.inner == other.inner
    }
}

impl<T: PartialEq> Eq for Annot<T> {

}

impl<T: PartialEq> vstd::std_specs::cmp::PartialEqSpecImpl for Annot<T> {
    open spec fn obeys_eq_spec() -> bool {
        <T as vstd::std_specs::cmp::PartialEqSpec>::obeys_eq_spec()
    }

    open spec fn eq_spec(&self, other: &Self) -> bool {
        &&& self.spec_x() == other.spec_x()
        &&& self.spec_y() == other.spec_y()
        &&& self.spec_inner().eq_spec(&other.spec_inner())
    }
}

/// A capability for payloads that report a two-dimensional size.
pub trait Annotate: Sized {
    /// The size `(width, height)` this payload reports.
    spec fn spec_size(&self) -> (u16, u16);

    /// Returns `(width, height)`.
    fn get_size(&self) -> (r: (u16, u16))
        ensures
            r == self.spec_size(),
    ;

    /// Bind the payload to a base position.
    fn annotate(self, root: (u16, u16)) -> (r: Annot<Self>)
        ensures
            r.spec_x() == root.0,
            r.spec_y() == root.1,
            r.spec_inner() == self,
    {
        Annot::new(root, self)
    }

    /// Returns the width.
    fn width(&self) -> (r: u16)
        ensures
            r == self.spec_size().0,
    {
        self.get_size().0
    }

    /// Returns the height.
    fn height(&self) -> (r: u16)
        ensures
            r == self.spec_size().1,
    {
        self.get_size().1
    }
}

/// A bare rectangular area, used as a size-only payload.
#[derive(Clone, Copy, Debug, PartialEq, Eq, Structural)]
pub struct Rect(pub u16, pub u16);

impl Rect {
    /// Create a rectangle of the given width and height.
    pub fn new(width: u16, height: u16) -> (r: Self)
        ensures
            r == (Rect(width, height)),
    {
        Self(width, height)
    }
}

impl Annotate for Rect {
    open spec fn spec_size(&self) -> (u16, u16) {
        (self.0, self.1)
    }

    fn get_size(&self) -> (r: (u16, u16))
        ensures
            r == self.spec_size(),
    {
        (self.0, self.1)
    }
}

/// The overlap test is symmetric: two placed boxes conflict in one order
/// exactly when they conflict in the other.
pub proof fn lemma_conflict_symmetric<T: Annotate, A: Annotate>(a: Annot<T>, b: Annot<A>)
    ensures
        conflicts(a, b) == conflicts(b, a),
{
}

} // verus!
