//! Axis-aligned bounding rectangles over integer points.

use vstd::prelude::*;
use crate::point::PointI32;

verus! {

/// A half-open rectangle `[left, right) x [top, bottom)`.
#[derive(Clone, Copy, Debug, PartialEq, Eq, Structural)]
pub struct BoundingRect {
    pub left: i32,
    pub top: i32,
    pub right: i32,
    pub bottom: i32,
}

impl Default for BoundingRect {
    fn default() -> (r: Self)
        ensures
            r == BoundingRect::zero(),
    {
        BoundingRect { left: 0, top: 0, right: 0, bottom: 0 }
    }
}

impl BoundingRect {
    /// The default rectangle, all coordinates zero.
    pub open spec fn zero() -> BoundingRect {
        BoundingRect { left: 0, top: 0, right: 0, bottom: 0 }
    }

    pub open spec fn width_int(self) -> int {
        self.right - self.left
    }

    pub open spec fn height_int(self) -> int {
        self.bottom - self.top
    }

    /// A rectangle is empty when both its width and its height are zero.
    pub open spec fn is_empty_spec(self) -> bool {
        self.width_int() == 0 && self.height_int() == 0
    }

    pub open spec fn contains_point(self, p: PointI32) -> bool {
        self.left <= p.x < self.right && self.top <= p.y < self.bottom
    }

    /// The rectangle after `add_x_y(x, y)`.
    pub open spec fn with_point(self, x: i32, y: i32) -> BoundingRect {
        if self.is_empty_spec() {
            BoundingRect { left: x, top: y, right: (x + 1) as i32, bottom: (y + 1) as i32 }
        } else {
            let (left, right) = if x < self.left {
                (x, self.right)
            } else if x + 1 > self.right {
                (self.left, (x + 1) as i32)
            } else {
                (self.left, self.right)
            };
            let (top, bottom) = if y < self.top {
                (y, self.bottom)
            } else if y + 1 > self.bottom {
                (self.top, (y + 1) as i32)
            } else {
                (self.top, self.bottom)
            };
            BoundingRect { left, top, right, bottom }
        }
    }

    /// The rectangle after `merge(other)`.
    pub open spec fn merged(self, other: BoundingRect) -> BoundingRect {
        if other.is_empty_spec() {
            self
        } else if self.is_empty_spec() {
            other
        } else {
            BoundingRect {
                left: if self.left <= other.left { self.left } else { other.left },
                top: if self.top <= other.top { self.top } else { other.top },
                right: if self.right >= other.right { self.right } else { other.right },
                bottom: if self.bottom >= other.bottom { self.bottom } else { other.bottom },
            }
        }
    }

    /// The rectangle after `translate(o)`.
    pub open spec fn translated(self, o: PointI32) -> BoundingRect {
        BoundingRect {
            left: (self.left + o.x) as i32,
            top: (self.top + o.y) as i32,
            right: (self.right + o.x) as i32,
            bottom: (self.bottom + o.y) as i32,
        }
    }

    pub open spec fn can_translate(self, o: PointI32) -> bool {
        &&& i32::MIN <= self.left + o.x <= i32::MAX
        &&& i32::MIN <= self.right + o.x <= i32::MAX
        &&& i32::MIN <= self.top + o.y <= i32::MAX
        &&& i32::MIN <= self.bottom + o.y <= i32::MAX
    }

    /// `self` is the tightest rectangle around the points of `s`; the empty set is
    /// bounded by any empty rectangle.
    pub open spec fn bounds(self, s: Set<PointI32>) -> bool {
        &&& forall|p: PointI32| s.contains(p) ==> self.contains_point(p)
        &&& (exists|p: PointI32| s.contains(p)) ==> {
            &&& exists|p: PointI32| #[trigger] s.contains(p) && p.x == self.left
            &&& exists|p: PointI32| #[trigger] s.contains(p) && p.x == self.right - 1
            &&& exists|p: PointI32| #[trigger] s.contains(p) && p.y == self.top
            &&& exists|p: PointI32| #[trigger] s.contains(p) && p.y == self.bottom - 1
        }
        &&& !(exists|p: PointI32| s.contains(p)) ==> self.is_empty_spec()
    }

    pub fn width(self) -> (w: i32)
        requires
            i32::MIN <= self.width_int() <= i32::MAX,
        ensures
            w == self.width_int(),
    {
        self.right - self.left
    }

    pub fn height(self) -> (h: i32)
        requires
            i32::MIN <= self.height_int() <= i32::MAX,
        ensures
            h == self.height_int(),
    {
        self.bottom - self.top
    }

    pub fn is_empty(self) -> (b: bool)
        ensures
            b == self.is_empty_spec(),
    {
        self.left == self.right && self.top == self.bottom
    }

    /// Grows the rectangle to cover the pixel at `(x, y)`.
    pub fn add_x_y(&mut self, x: i32, y: i32)
        requires
            x < i32::MAX,
            y < i32::MAX,
        ensures
            *final(self) == old(self).with_point(x, y),
    {
        if self.is_empty() {
            self.left = x;
            self.right = x + 1;
            self.top = y;
            self.bottom = y + 1;
            return;
        }
        if x < self.left {
            self.left = x;
        } else if x + 1 > self.right {
            self.right = x + 1;
        }
        if y < self.top {
            self.top = y;
        } else if y + 1 > self.bottom {
            self.bottom = y + 1;
        }
    }

    /// Grows the rectangle to cover `other`; an empty rectangle adds nothing.
    pub fn merge(&mut self, other: BoundingRect)
        ensures
            *final(self) == old(self).merged(other),
    {
        if other.is_empty() {
            return;
        }
        if self.is_empty() {
            *self = other;
            return;
        }
        if other.left < self.left {
            self.left = other.left;
        }
        if other.top < self.top {
            self.top = other.top;
        }
        if other.right > self.right {
            self.right = other.right;
        }
        if other.bottom > self.bottom {
            self.bottom = other.bottom;
        }
    }

    pub fn translate(&mut self, o: PointI32)
        requires
            old(self).can_translate(o),
        ensures
            *final(self) == old(self).translated(o),
    {
        self.left = self.left + o.x;
        self.top = self.top + o.y;
        self.right = self.right + o.x;
        self.bottom = self.bottom + o.y;
    }
}

/// Adding a point to a bounded set gives the bounding rectangle of the set with that point.
pub proof fn lemma_bounds_insert(r: BoundingRect, s: Set<PointI32>, p: PointI32)
    requires
        r.bounds(s),
        p.x < i32::MAX,
        p.y < i32::MAX,
    ensures
        r.with_point(p.x, p.y).bounds(s.insert(p)),
{
    let r2 = r.with_point(p.x, p.y);
    let s2 = s.insert(p);
    assert(s2.contains(p));
    if exists|q: PointI32| s.contains(q) {
        let q = choose|q: PointI32| s.contains(q);
        assert(r.contains_point(q));
        assert(!r.is_empty_spec());
        let a = choose|q: PointI32| #[trigger] s.contains(q) && q.x == r.left;
        let b = choose|q: PointI32| #[trigger] s.contains(q) && q.x == r.right - 1;
        let c = choose|q: PointI32| #[trigger] s.contains(q) && q.y == r.top;
        let d = choose|q: PointI32| #[trigger] s.contains(q) && q.y == r.bottom - 1;
        assert(s2.contains(a) && s2.contains(b) && s2.contains(c) && s2.contains(d));
        assert forall|q: PointI32| s2.contains(q) implies r2.contains_point(q) by {
            if q != p {
                assert(s.contains(q));
            }
        }
    } else {
        assert forall|q: PointI32| s2.contains(q) implies r2.contains_point(q) by {
            assert(q == p);
        }
    }
}

/// Merging the bounding rectangles of two sets bounds their union.
pub proof fn lemma_bounds_union(r1: BoundingRect, s1: Set<PointI32>, r2: BoundingRect, s2: Set<PointI32>)
    requires
        r1.bounds(s1),
        r2.bounds(s2),
    ensures
        r1.merged(r2).bounds(s1.union(s2)),
{
    let u = s1.union(s2);
    let m = r1.merged(r2);
    if exists|q: PointI32| s2.contains(q) {
        let q2 = choose|q: PointI32| s2.contains(q);
        assert(r2.contains_point(q2));
        assert(!r2.is_empty_spec());
        let a2 = choose|q: PointI32| #[trigger] s2.contains(q) && q.x == r2.left;
        let b2 = choose|q: PointI32| #[trigger] s2.contains(q) && q.x == r2.right - 1;
        let c2 = choose|q: PointI32| #[trigger] s2.contains(q) && q.y == r2.top;
        let d2 = choose|q: PointI32| #[trigger] s2.contains(q) && q.y == r2.bottom - 1;
        assert(u.contains(a2) && u.contains(b2) && u.contains(c2) && u.contains(d2));
        if exists|q: PointI32| s1.contains(q) {
            let q1 = choose|q: PointI32| s1.contains(q);
            assert(r1.contains_point(q1));
            assert(!r1.is_empty_spec());
            let a1 = choose|q: PointI32| #[trigger] s1.contains(q) && q.x == r1.left;
            let b1 = choose|q: PointI32| #[trigger] s1.contains(q) && q.x == r1.right - 1;
            let c1 = choose|q: PointI32| #[trigger] s1.contains(q) && q.y == r1.top;
            let d1 = choose|q: PointI32| #[trigger] s1.contains(q) && q.y == r1.bottom - 1;
            assert(u.contains(a1) && u.contains(b1) && u.contains(c1) && u.contains(d1));
        } else {
            assert(forall|q: PointI32| u.contains(q) ==> s2.contains(q));
        }
    } else {
        assert(forall|q: PointI32| u.contains(q) ==> s1.contains(q));
        if exists|q: PointI32| s1.contains(q) {
            let a1 = choose|q: PointI32| #[trigger] s1.contains(q) && q.x == r1.left;
            let b1 = choose|q: PointI32| #[trigger] s1.contains(q) && q.x == r1.right - 1;
            let c1 = choose|q: PointI32| #[trigger] s1.contains(q) && q.y == r1.top;
            let d1 = choose|q: PointI32| #[trigger] s1.contains(q) && q.y == r1.bottom - 1;
            assert(u.contains(a1) && u.contains(b1) && u.contains(c1) && u.contains(d1));
        }
    }
}

/// Translating a bounding rectangle bounds the translated points.
pub proof fn lemma_bounds_translate(r: BoundingRect, s: Set<PointI32>, o: PointI32)
    requires
        r.bounds(s),
        r.can_translate(o),
    ensures
        r.translated(o).bounds(s.map(|p: PointI32| p.shifted_by(o))),
{
    let f = |p: PointI32| p.shifted_by(o);
    let t = s.map(f);
    let r2 = r.translated(o);
    assert forall|q: PointI32| t.contains(q) implies r2.contains_point(q) by {
        let p = choose|p: PointI32| s.contains(p) && f(p) == q;
        assert(r.contains_point(p));
    }
    if exists|q: PointI32| t.contains(q) {
        let q = choose|q: PointI32| t.contains(q);
        let p = choose|p: PointI32| s.contains(p) && f(p) == q;
        assert(s.contains(p));
        let a = choose|q: PointI32| #[trigger] s.contains(q) && q.x == r.left;
        let b = choose|q: PointI32| #[trigger] s.contains(q) && q.x == r.right - 1;
        let c = choose|q: PointI32| #[trigger] s.contains(q) && q.y == r.top;
        let d = choose|q: PointI32| #[trigger] s.contains(q) && q.y == r.bottom - 1;
        assert(r.contains_point(a) && r.contains_point(b) && r.contains_point(c) && r.contains_point(d));
        assert(t.contains(f(a)) && t.contains(f(b)) && t.contains(f(c)) && t.contains(f(d)));
    } else {
        if exists|p: PointI32| s.contains(p) {
            let p = choose|p: PointI32| s.contains(p);
            assert(t.contains(f(p)));
        }
    }
}

/// A non-empty set has one bounding rectangle.
pub proof fn lemma_bounds_unique(r1: BoundingRect, r2: BoundingRect, s: Set<PointI32>, p: PointI32)
    requires
        r1.bounds(s),
        r2.bounds(s),
        s.contains(p),
    ensures
        r1 == r2,
{
    let a1 = choose|q: PointI32| #[trigger] s.contains(q) && q.x == r1.left;
    let b1 = choose|q: PointI32| #[trigger] s.contains(q) && q.x == r1.right - 1;
    let c1 = choose|q: PointI32| #[trigger] s.contains(q) && q.y == r1.top;
    let d1 = choose|q: PointI32| #[trigger] s.contains(q) && q.y == r1.bottom - 1;
    let a2 = choose|q: PointI32| #[trigger] s.contains(q) && q.x == r2.left;
    let b2 = choose|q: PointI32| #[trigger] s.contains(q) && q.x == r2.right - 1;
    let c2 = choose|q: PointI32| #[trigger] s.contains(q) && q.y == r2.top;
    let d2 = choose|q: PointI32| #[trigger] s.contains(q) && q.y == r2.bottom - 1;
    assert(r1.contains_point(a2) && r1.contains_point(b2) && r1.contains_point(c2) && r1.contains_point(d2));
    assert(r2.contains_point(a1) && r2.contains_point(b1) && r2.contains_point(c1) && r2.contains_point(d1));
}

} // verus!
