//! Points, vectors and axis-aligned rectangles on the integer grid.

use vstd::prelude::*;

verus! {

/// The largest coordinate magnitude of a point that the engine stores.
pub const COORD_LIMIT: i64 = 0x8000_0000;

/// A 2D point or vector with integer components.
#[derive(Clone, Copy, Debug, PartialEq, Eq, Structural)]
pub struct IVec2 {
    pub x: i64,
    pub y: i64,
}

impl IVec2 {
    pub fn new(x: i64, y: i64) -> (r: IVec2)
        ensures
            r.x == x,
            r.y == y,
    {
        IVec2 { x, y }
    }

    pub fn zero() -> (r: IVec2)
        ensures
            r.x == 0,
            r.y == 0,
    {
        IVec2 { x: 0, y: 0 }
    }

    /// Both components lie within `COORD_LIMIT` of the origin.
    pub open spec fn in_coord_range(self) -> bool {
        -COORD_LIMIT <= self.x <= COORD_LIMIT && -COORD_LIMIT <= self.y <= COORD_LIMIT
    }

    pub open spec fn dot(self, o: IVec2) -> int {
        self.x * o.x + self.y * o.y
    }

    pub open spec fn length_squared(self) -> int {
        self.dot(self)
    }
}

/// An axis-aligned rectangle given by its center and half extents, with the
/// four bounds kept alongside.
#[derive(Clone, Copy, Debug, PartialEq, Eq, Structural)]
pub struct Rect {
    pub x: i64,
    pub y: i64,
    pub half_width: i64,
    pub half_height: i64,
    pub left: i64,
    pub right: i64,
    pub up: i64,
    pub down: i64,
}

/// The rectangle with center `(x, y)` and the given half extents.
pub open spec fn rect_spec(x: int, y: int, half_width: int, half_height: int) -> Rect {
    Rect {
        x: x as i64,
        y: y as i64,
        half_width: half_width as i64,
        half_height: half_height as i64,
        left: (x - half_width) as i64,
        right: (x + half_width) as i64,
        up: (y - half_height) as i64,
        down: (y + half_height) as i64,
    }
}

impl Rect {
    /// The half extents are non-negative and at most `COORD_LIMIT`, the center
    /// lies within three times that, and the bounds are the center plus or minus
    /// the half extents.
    pub open spec fn wf(self) -> bool {
        &&& 0 <= self.half_width <= COORD_LIMIT
        &&& 0 <= self.half_height <= COORD_LIMIT
        &&& -3 * COORD_LIMIT <= self.x <= 3 * COORD_LIMIT
        &&& -3 * COORD_LIMIT <= self.y <= 3 * COORD_LIMIT
        &&& self.left == self.x - self.half_width
        &&& self.right == self.x + self.half_width
        &&& self.up == self.y - self.half_height
        &&& self.down == self.y + self.half_height
    }

    /// Half-open containment: the left and upper bounds belong to the
    /// rectangle, the right and lower ones do not.
    pub open spec fn contains_spec(self, p: IVec2) -> bool {
        self.left <= p.x < self.right && self.up <= p.y < self.down
    }

    /// Closed overlap: rectangles that only touch on a bound overlap.
    pub open spec fn overlap_spec(self, o: Rect) -> bool {
        !(self.right < o.left || self.left > o.right || self.up > o.down || self.down < o.up)
    }

    /// A rectangle centered on `(x, y)`, `width` wide and `height` high; an odd
    /// extent is rounded down to an even one.
    pub fn new(x: i64, y: i64, width: i64, height: i64) -> (r: Rect)
        requires
            0 <= width <= 2 * COORD_LIMIT,
            0 <= height <= 2 * COORD_LIMIT,
            -3 * COORD_LIMIT <= x <= 3 * COORD_LIMIT,
            -3 * COORD_LIMIT <= y <= 3 * COORD_LIMIT,
        ensures
            r.wf(),
            r.x == x,
            r.y == y,
            r.half_width == width / 2,
            r.half_height == height / 2,
    {
        let half_width: i64 = width / 2;
        let half_height: i64 = height / 2;
        Rect {
            x,
            y,
            half_width,
            half_height,
            left: x - half_width,
            right: x + half_width,
            up: y - half_height,
            down: y + half_height,
        }
    }

    pub fn contains(&self, pos: IVec2) -> (r: bool)
        ensures
            r == self.contains_spec(pos),
    {
        pos.x >= self.left && pos.x < self.right && pos.y >= self.up && pos.y < self.down
    }

    pub fn overlap(&self, other: &Rect) -> (r: bool)
        ensures
            r == self.overlap_spec(*other),
    {
        !(self.right < other.left || self.left > other.right || self.up > other.down
            || self.down < other.up)
    }
}

/// A point strictly inside a rectangle is contained in it; a point on its
/// right or lower bound is not.
pub proof fn lemma_contains_half_open(r: Rect, p: IVec2)
    requires
        r.wf(),
    ensures
        (r.x - r.half_width < p.x < r.x + r.half_width && r.y - r.half_height < p.y < r.y
            + r.half_height) ==> r.contains_spec(p),
        p.x == r.x + r.half_width ==> !r.contains_spec(p),
        p.y == r.y + r.half_height ==> !r.contains_spec(p),
{
}

/// A point contained in two rectangles shows that they overlap.
pub proof fn lemma_common_point_overlaps(a: Rect, b: Rect, p: IVec2)
    requires
        a.contains_spec(p),
        b.contains_spec(p),
    ensures
        a.overlap_spec(b),
{
}

} // verus!
