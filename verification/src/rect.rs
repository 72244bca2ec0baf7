use vstd::prelude::*;

verus! {

/// An axis-aligned rectangle given by two corners: `(x1, y1)` is the
/// top-left corner and `(x2, y2)` the bottom-right one.
#[derive(Clone, Copy, Debug, PartialEq, Eq, Structural)]
pub struct Rect<T> {
    pub x1: T,
    pub y1: T,
    pub x2: T,
    pub y2: T,
}

/// The larger of two values (the first one on a tie).
pub open spec fn spec_max(a: int, b: int) -> int {
    if b > a { b } else { a }
}

/// The smaller of two values (the second one on a tie).
pub open spec fn spec_min(a: int, b: int) -> int {
    if b > a { a } else { b }
}

/// Whether a value fits in an `i32`.
pub open spec fn fits_i32(v: int) -> bool {
    i32::MIN <= v <= i32::MAX
}

fn partial_max(a: i32, b: i32) -> (r: i32)
    ensures
        r == spec_max(a as int, b as int),
{
    if b > a {
        b
    } else {
        a
    }
}

fn partial_min(a: i32, b: i32) -> (r: i32)
    ensures
        r == spec_min(a as int, b as int),
{
    if b > a {
        a
    } else {
        b
    }
}

impl Rect<i32> {
    /// Whether the closed rectangle holds the point `(x, y)`.
    pub open spec fn holds(self, x: int, y: int) -> bool {
        self.x1 <= x <= self.x2 && self.y1 <= y <= self.y2
    }

    /// Whether the two closed rectangles share a point, as `intersects` decides it.
    pub open spec fn spec_intersects(self, other: Self) -> bool {
        !(self.y2 < other.y1 || self.y1 > other.y2 || self.x2 < other.x1 || self.x1 > other.x2)
    }

    /// The smallest rectangle whose corners bound both corners of each argument.
    pub open spec fn spec_union(self, other: Self) -> Self {
        Rect {
            x1: spec_min(self.x1 as int, other.x1 as int) as i32,
            y1: spec_min(self.y1 as int, other.y1 as int) as i32,
            x2: spec_max(self.x2 as int, other.x2 as int) as i32,
            y2: spec_max(self.y2 as int, other.y2 as int) as i32,
        }
    }

    /// The rectangle grown by `add` on every side.
    pub open spec fn spec_inflated(self, add: int) -> Self {
        Rect {
            x1: (self.x1 - add) as i32,
            y1: (self.y1 - add) as i32,
            x2: (self.x2 + add) as i32,
            y2: (self.y2 + add) as i32,
        }
    }

    /// Whether growing the rectangle by `add` stays within `i32`.
    pub open spec fn inflatable(self, add: int) -> bool {
        fits_i32(self.x1 - add) && fits_i32(self.y1 - add) && fits_i32(self.x2 + add) && fits_i32(self.y2 + add)
    }

    /// Rectangle from its two corners.
    pub fn new(x1: i32, y1: i32, x2: i32, y2: i32) -> (r: Self)
        ensures
            r == (Rect { x1, y1, x2, y2 }),
    {
        Rect { x1, y1, x2, y2 }
    }

    /// Rectangle from its top-left corner, a width and a height.
    pub fn new_wh(x1: i32, y1: i32, w: i32, h: i32) -> (r: Self)
        requires
            fits_i32(x1 + w),
            fits_i32(y1 + h),
        ensures
            r.x1 == x1,
            r.y1 == y1,
            r.x2 == x1 + w,
            r.y2 == y1 + h,
    {
        let x2 = x1 + w;
        let y2 = y1 + h;
        Rect { x1, y1, x2, y2 }
    }

    pub fn left(&self) -> (r: i32)
        ensures
            r == self.x1,
    {
        self.x1
    }

    pub fn right(&self) -> (r: i32)
        ensures
            r == self.x2,
    {
        self.x2
    }

    pub fn top(&self) -> (r: i32)
        ensures
            r == self.y1,
    {
        self.y1
    }

    pub fn bottom(&self) -> (r: i32)
        ensures
            r == self.y2,
    {
        self.y2
    }

    pub fn width(&self) -> (r: i32)
        requires
            fits_i32(self.x2 - self.x1),
        ensures
            r == self.x2 - self.x1,
    {
        self.x2 - self.x1
    }

    pub fn height(&self) -> (r: i32)
        requires
            fits_i32(self.y2 - self.y1),
        ensures
            r == self.y2 - self.y1,
    {
        self.y2 - self.y1
    }

    /// The half-open horizontal range `left..right`.
    pub fn range_lr(&self) -> (r: core::ops::Range<i32>)
        ensures
            r.start == self.x1,
            r.end == self.x2,
    {
        self.x1..self.x2
    }

    /// The half-open vertical range `top..bottom`.
    pub fn range_tb(&self) -> (r: core::ops::Range<i32>)
        ensures
            r.start == self.y1,
            r.end == self.y2,
    {
        self.y1..self.y2
    }

    /// The rectangle grown by `add` on every side.
    pub fn inflated(&self, add: i32) -> (r: Self)
        requires
            fits_i32(self.x1 - add),
            fits_i32(self.y1 - add),
            fits_i32(self.x2 + add),
            fits_i32(self.y2 + add),
        ensures
            r.x1 == self.x1 - add,
            r.y1 == self.y1 - add,
            r.x2 == self.x2 + add,
            r.y2 == self.y2 + add,
            r == self.spec_inflated(add as int),
    {
        Rect { x1: self.x1 - add, y1: self.y1 - add, x2: self.x2 + add, y2: self.y2 + add }
    }

    /// Whether the two rectangles overlap, edges included.
    pub fn intersects(&self, other: &Self) -> (r: bool)
        ensures
            r == self.spec_intersects(*other),
    {
        !(self.bottom() < other.top() || self.top() > other.bottom() || self.right() < other.left()
            || self.left() > other.right())
    }

    /// Whether the point lies in the rectangle, edges included.
    pub fn contains_point(&self, point: (i32, i32)) -> (r: bool)
        ensures
            r == self.holds(point.0 as int, point.1 as int),
    {
        let (x, y) = point;
        x >= self.left() && y >= self.top() && x <= self.right() && y <= self.bottom()
    }

    /// The rectangle spanned by the top-left-most and bottom-right-most corners of both.
    pub fn union(self, other: Self) -> (r: Self)
        ensures
            r == self.spec_union(other),
    {
        let x1 = partial_min(self.x1, other.x1);
        let y1 = partial_min(self.y1, other.y1);
        let x2 = partial_max(self.x2, other.x2);
        let y2 = partial_max(self.y2, other.y2);
        Rect { x1, y1, x2, y2 }
    }
}

/// Every point of either rectangle lies in their union.
pub proof fn lemma_union_covers(a: Rect<i32>, b: Rect<i32>, x: int, y: int)
    requires
        a.holds(x, y) || b.holds(x, y),
    ensures
        a.spec_union(b).holds(x, y),
{
}

/// The union does not depend on the order of its arguments.
pub proof fn lemma_union_commutative(a: Rect<i32>, b: Rect<i32>)
    ensures
        a.spec_union(b) == b.spec_union(a),
{
}

/// A rectangle's union with itself is itself.
pub proof fn lemma_union_idempotent(a: Rect<i32>)
    ensures
        a.spec_union(a) == a,
{
}

/// `intersects` is symmetric.
pub proof fn lemma_intersects_symmetric(a: Rect<i32>, b: Rect<i32>)
    ensures
        a.spec_intersects(b) == b.spec_intersects(a),
{
}

/// Two rectangles that share a point intersect.
pub proof fn lemma_common_point_intersects(a: Rect<i32>, b: Rect<i32>, x: int, y: int)
    requires
        a.holds(x, y),
        b.holds(x, y),
    ensures
        a.spec_intersects(b),
{
}

/// Growing by nothing gives the same rectangle.
pub proof fn lemma_inflated_zero(r: Rect<i32>)
    ensures
        r.spec_inflated(0) == r,
{
}

/// Growing by `a` and then by `b` is growing by `a + b`.
pub proof fn lemma_inflated_compose(r: Rect<i32>, a: int, b: int)
    requires
        r.inflatable(a),
        r.spec_inflated(a).inflatable(b),
    ensures
        r.spec_inflated(a).spec_inflated(b) == r.spec_inflated(a + b),
{
}

/// Growing by `a` adds `2 a` to the width and to the height.
pub proof fn lemma_inflated_size(r: Rect<i32>, a: int)
    requires
        r.inflatable(a),
    ensures
        r.spec_inflated(a).x2 - r.spec_inflated(a).x1 == r.x2 - r.x1 + 2 * a,
        r.spec_inflated(a).y2 - r.spec_inflated(a).y1 == r.y2 - r.y1 + 2 * a,
{
}

/// A rectangle made from a corner, a width and a height has that width and height.
pub proof fn lemma_new_wh_size(r: Rect<i32>, x1: int, y1: int, w: int, h: int)
    requires
        r.x1 == x1,
        r.y1 == y1,
        r.x2 == x1 + w,
        r.y2 == y1 + h,
    ensures
        r.x2 - r.x1 == w,
        r.y2 - r.y1 == h,
{
}

} // verus!
