//! Sizes, points, rectangles and layout constraints, in whole logical units.
use vstd::prelude::*;

verus! {

/// Coordinates and extents stay within this bound in magnitude.
pub const COORD_LIMIT: i64 = 1_000_000_000_000;

pub open spec fn in_range(v: i64) -> bool {
    -COORD_LIMIT <= v <= COORD_LIMIT
}

pub open spec fn clamp(v: int, lo: int, hi: int) -> int {
    if v < lo {
        lo
    } else if v > hi {
        hi
    } else {
        v
    }
}

#[derive(Clone, Copy, Debug, Default, PartialEq, Eq, Structural)]
pub struct Size {
    pub width: i64,
    pub height: i64,
}

#[derive(Clone, Copy, Debug, Default, PartialEq, Eq, Structural)]
pub struct Point {
    pub x: i64,
    pub y: i64,
}

/// The points `(x, y)` with `x0 <= x < x1` and `y0 <= y < y1`.
#[derive(Clone, Copy, Debug, Default, PartialEq, Eq, Structural)]
pub struct Rect {
    pub x0: i64,
    pub y0: i64,
    pub x1: i64,
    pub y1: i64,
}

impl Size {
    /// Neither extent is negative, and both are within bounds.
    pub open spec fn wf(&self) -> bool {
        0 <= self.width <= COORD_LIMIT && 0 <= self.height <= COORD_LIMIT
    }

    pub fn new(width: i64, height: i64) -> (r: Self)
        ensures
            r.width == width,
            r.height == height,
    {
        Size { width, height }
    }

    pub fn is_wf(&self) -> (r: bool)
        ensures
            r == self.wf(),
    {
        0 <= self.width && self.width <= COORD_LIMIT && 0 <= self.height && self.height <= COORD_LIMIT
    }

    /// The rectangle of this size at the origin.
    pub fn to_rect(&self) -> (r: Rect)
        ensures
            r == (Rect { x0: 0, y0: 0, x1: self.width, y1: self.height }),
    {
        Rect { x0: 0, y0: 0, x1: self.width, y1: self.height }
    }
}

impl Point {
    pub open spec fn wf(&self) -> bool {
        in_range(self.x) && in_range(self.y)
    }

    pub fn new(x: i64, y: i64) -> (r: Self)
        ensures
            r.x == x,
            r.y == y,
    {
        Point { x, y }
    }

    pub fn is_wf(&self) -> (r: bool)
        ensures
            r == self.wf(),
    {
        -COORD_LIMIT <= self.x && self.x <= COORD_LIMIT && -COORD_LIMIT <= self.y && self.y <= COORD_LIMIT
    }
}

impl Rect {
    pub open spec fn wf(&self) -> bool {
        in_range(self.x0) && in_range(self.y0) && in_range(self.x1) && in_range(self.y1)
    }

    pub fn is_wf(&self) -> (r: bool)
        ensures
            r == self.wf(),
    {
        -COORD_LIMIT <= self.x0 && self.x0 <= COORD_LIMIT && -COORD_LIMIT <= self.y0 && self.y0
            <= COORD_LIMIT && -COORD_LIMIT <= self.x1 && self.x1 <= COORD_LIMIT && -COORD_LIMIT
            <= self.y1 && self.y1 <= COORD_LIMIT
    }

    pub open spec fn is_empty_spec(&self) -> bool {
        self.x1 <= self.x0 || self.y1 <= self.y0
    }

    pub open spec fn has(&self, p: Point) -> bool {
        self.x0 <= p.x < self.x1 && self.y0 <= p.y < self.y1
    }

    /// The rectangle with `origin` and `size`.
    pub fn from_origin_size(origin: Point, size: Size) -> (r: Rect)
        requires
            origin.wf(),
            size.wf(),
        ensures
            r == (Rect {
                x0: origin.x,
                y0: origin.y,
                x1: (origin.x + size.width) as i64,
                y1: (origin.y + size.height) as i64,
            }),
    {
        Rect { x0: origin.x, y0: origin.y, x1: origin.x + size.width, y1: origin.y + size.height }
    }

    /// Whether `p` lies inside.
    pub fn contains(&self, p: Point) -> (r: bool)
        ensures
            r == self.has(p),
    {
        self.x0 <= p.x && p.x < self.x1 && self.y0 <= p.y && p.y < self.y1
    }

    /// Whether no point lies inside.
    pub fn is_empty(&self) -> (r: bool)
        ensures
            r == self.is_empty_spec(),
    {
        self.x1 <= self.x0 || self.y1 <= self.y0
    }

    /// The same rectangle moved by `by`.
    pub fn translate(&self, by: Point) -> (r: Rect)
        requires
            self.wf(),
            by.wf(),
        ensures
            r == (Rect {
                x0: (self.x0 + by.x) as i64,
                y0: (self.y0 + by.y) as i64,
                x1: (self.x1 + by.x) as i64,
                y1: (self.y1 + by.y) as i64,
            }),
    {
        Rect { x0: self.x0 + by.x, y0: self.y0 + by.y, x1: self.x1 + by.x, y1: self.y1 + by.y }
    }

    /// The points that lie in both.
    pub fn intersect(&self, other: &Rect) -> (r: Rect)
        ensures
            forall|p: Point| r.has(p) <==> self.has(p) && other.has(p),
            r.x0 == if self.x0 >= other.x0 { self.x0 } else { other.x0 },
            r.y0 == if self.y0 >= other.y0 { self.y0 } else { other.y0 },
            r.x1 == if self.x1 <= other.x1 { self.x1 } else { other.x1 },
            r.y1 == if self.y1 <= other.y1 { self.y1 } else { other.y1 },
    {
        Rect {
            x0: if self.x0 >= other.x0 { self.x0 } else { other.x0 },
            y0: if self.y0 >= other.y0 { self.y0 } else { other.y0 },
            x1: if self.x1 <= other.x1 { self.x1 } else { other.x1 },
            y1: if self.y1 <= other.y1 { self.y1 } else { other.y1 },
        }
    }

    /// The smallest rectangle holding both.
    pub fn union(&self, other: &Rect) -> (r: Rect)
        ensures
            forall|p: Point| self.has(p) || other.has(p) ==> r.has(p),
            r.x0 == if self.x0 <= other.x0 { self.x0 } else { other.x0 },
            r.y0 == if self.y0 <= other.y0 { self.y0 } else { other.y0 },
            r.x1 == if self.x1 >= other.x1 { self.x1 } else { other.x1 },
            r.y1 == if self.y1 >= other.y1 { self.y1 } else { other.y1 },
    {
        Rect {
            x0: if self.x0 <= other.x0 { self.x0 } else { other.x0 },
            y0: if self.y0 <= other.y0 { self.y0 } else { other.y0 },
            x1: if self.x1 >= other.x1 { self.x1 } else { other.x1 },
            y1: if self.y1 >= other.y1 { self.y1 } else { other.y1 },
        }
    }
}

/// The sizes a node may take: between `min` and `max`.
#[derive(Clone, Copy, Debug, Default, PartialEq, Eq, Structural)]
pub struct Constraints {
    pub min: Size,
    pub max: Size,
}

fn clamp_i64(v: i64, lo: i64, hi: i64) -> (r: i64)
    requires
        lo <= hi,
    ensures
        r == clamp(v as int, lo as int, hi as int),
{
    if v < lo {
        lo
    } else if v > hi {
        hi
    } else {
        v
    }
}

impl Constraints {
    pub open spec fn wf(&self) -> bool {
        self.min.wf() && self.max.wf()
    }

    /// Exactly `size`.
    pub fn tight(size: Size) -> (r: Self)
        ensures
            r.min == size,
            r.max == size,
    {
        Constraints { min: size, max: size }
    }

    pub fn with_min(&self, min: Size) -> (r: Self)
        ensures
            r.min == min,
            r.max == self.max,
    {
        Constraints { min, max: self.max }
    }

    pub fn with_max(&self, max: Size) -> (r: Self)
        ensures
            r.min == self.min,
            r.max == max,
    {
        Constraints { min: self.min, max }
    }

    pub fn with_max_height(&self, height: i64) -> (r: Self)
        ensures
            r.min == self.min,
            r.max == (Size { width: self.max.width, height }),
    {
        Constraints { min: self.min, max: Size { width: self.max.width, height } }
    }

    /// The same constraints with each minimum brought into `[0, max]`.
    pub fn clipped(&self) -> (r: Self)
        requires
            self.max.wf(),
        ensures
            r.max == self.max,
            r.min.width == clamp(self.min.width as int, 0, self.max.width as int),
            r.min.height == clamp(self.min.height as int, 0, self.max.height as int),
            r.wf(),
            r.min.width <= r.max.width && r.min.height <= r.max.height,
    {
        let min = Size {
            width: clamp_i64(self.min.width, 0, self.max.width),
            height: clamp_i64(self.min.height, 0, self.max.height),
        };
        Constraints { min, max: self.max }
    }

    /// The constraints left for content once `size` is taken off every
    /// side's total: both bounds shrink by `size`, the maximum stops at
    /// zero, and the minimum is clipped into `[0, max]`.
    pub fn shrink(&self, size: Size) -> (r: Self)
        requires
            self.wf(),
            size.wf(),
        ensures
            r.max.width == clamp(self.max.width - size.width, 0, COORD_LIMIT as int),
            r.max.height == clamp(self.max.height - size.height, 0, COORD_LIMIT as int),
            r.min.width == clamp(self.min.width - size.width, 0, r.max.width as int),
            r.min.height == clamp(self.min.height - size.height, 0, r.max.height as int),
            r.wf(),
    {
        let max = Size {
            width: clamp_i64(self.max.width - size.width, 0, COORD_LIMIT),
            height: clamp_i64(self.max.height - size.height, 0, COORD_LIMIT),
        };
        let shrunk = Constraints {
            min: Size { width: self.min.width - size.width, height: self.min.height - size.height },
            max,
        };
        shrunk.clipped()
    }

    /// The size within these constraints nearest to `size`.
    pub fn constrain(&self, size: Size) -> (r: Size)
        requires
            self.wf(),
            self.min.width <= self.max.width,
            self.min.height <= self.max.height,
        ensures
            r.width == clamp(size.width as int, self.min.width as int, self.max.width as int),
            r.height == clamp(size.height as int, self.min.height as int, self.max.height as int),
            r.wf(),
    {
        Size {
            width: clamp_i64(size.width, self.min.width, self.max.width),
            height: clamp_i64(size.height, self.min.height, self.max.height),
        }
    }
}

} // verus!
