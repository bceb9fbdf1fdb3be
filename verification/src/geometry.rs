//! Axis-aligned rectangles in integer device coordinates.
//!
//! A rectangle covers the half-open pixel ranges `[x, x + width)` ×
//! `[y, y + height)`. A *well-formed* rectangle has non-negative size and
//! edges inside the `i32` coordinate range, so that the bounding union of
//! two well-formed rectangles is again well formed.

use vstd::prelude::*;

verus! {

#[derive(Clone, Copy, Debug, PartialEq, Eq, Structural)]
pub struct Rect {
    pub x: i64,
    pub y: i64,
    pub width: i64,
    pub height: i64,
}

impl Rect {
    /// Non-negative size, every edge inside the `i32` range.
    pub open spec fn wf(self) -> bool {
        &&& 0 <= self.width
        &&& 0 <= self.height
        &&& i32::MIN <= self.x
        &&& self.x + self.width <= i32::MAX
        &&& i32::MIN <= self.y
        &&& self.y + self.height <= i32::MAX
    }

    pub open spec fn right_edge(self) -> int {
        self.x + self.width
    }

    pub open spec fn bottom_edge(self) -> int {
        self.y + self.height
    }

    /// The pixel `(px, py)` lies inside the rectangle.
    pub open spec fn has_point(self, px: int, py: int) -> bool {
        self.x <= px < self.right_edge() && self.y <= py < self.bottom_edge()
    }

    /// `other` lies inside `self` (edges included).
    pub open spec fn encloses(self, other: Rect) -> bool {
        &&& self.x <= other.x
        &&& self.y <= other.y
        &&& other.right_edge() <= self.right_edge()
        &&& other.bottom_edge() <= self.bottom_edge()
    }

    /// The open interiors of the two rectangles meet.
    pub open spec fn overlaps(self, other: Rect) -> bool {
        &&& self.x < other.right_edge()
        &&& other.x < self.right_edge()
        &&& self.y < other.bottom_edge()
        &&& other.y < self.bottom_edge()
    }

    /// Smallest rectangle enclosing both.
    pub open spec fn bounding_union(self, other: Rect) -> Rect {
        let x0 = if self.x <= other.x {
            self.x
        } else {
            other.x
        };
        let y0 = if self.y <= other.y {
            self.y
        } else {
            other.y
        };
        let x1 = if self.right_edge() >= other.right_edge() {
            self.right_edge()
        } else {
            other.right_edge()
        };
        let y1 = if self.bottom_edge() >= other.bottom_edge() {
            self.bottom_edge()
        } else {
            other.bottom_edge()
        };
        Rect { x: x0, y: y0, width: (x1 - x0) as i64, height: (y1 - y0) as i64 }
    }

    pub open spec fn spec_area(self) -> int {
        self.width * self.height
    }

    /// Length of the overlap of two half-open intervals (zero when apart).
    pub open spec fn overlap_len(a0: int, a1: int, b0: int, b1: int) -> int {
        let lo = if a0 >= b0 {
            a0
        } else {
            b0
        };
        let hi = if a1 <= b1 {
            a1
        } else {
            b1
        };
        if hi > lo {
            hi - lo
        } else {
            0
        }
    }

    pub open spec fn spec_intersection_area(self, other: Rect) -> int {
        Rect::overlap_len(self.x as int, self.right_edge(), other.x as int, other.right_edge())
            * Rect::overlap_len(
            self.y as int,
            self.bottom_edge(),
            other.y as int,
            other.bottom_edge(),
        )
    }

    /// The part of `self` inside `clip`, as the degenerate
    /// zero-size rectangle at the clipped origin when they do not meet.
    pub open spec fn clipped_to(self, clip: Rect) -> Rect {
        let x0 = if self.x >= clip.x {
            self.x
        } else {
            clip.x
        };
        let y0 = if self.y >= clip.y {
            self.y
        } else {
            clip.y
        };
        let x1 = if self.right_edge() <= clip.right_edge() {
            self.right_edge()
        } else {
            clip.right_edge()
        };
        let y1 = if self.bottom_edge() <= clip.bottom_edge() {
            self.bottom_edge()
        } else {
            clip.bottom_edge()
        };
        if x1 > x0 && y1 > y0 {
            Rect { x: x0, y: y0, width: (x1 - x0) as i64, height: (y1 - y0) as i64 }
        } else {
            Rect { x: x0, y: y0, width: 0, height: 0 }
        }
    }

    pub open spec fn is_empty_area(self) -> bool {
        self.width <= 0 || self.height <= 0
    }

    pub fn new(x: i64, y: i64, width: i64, height: i64) -> (r: Rect)
        ensures
            r.x == x,
            r.y == y,
            r.width == width,
            r.height == height,
    {
        Rect { x, y, width, height }
    }

    pub fn right(&self) -> (r: i128)
        ensures
            r == self.right_edge(),
    {
        self.x as i128 + self.width as i128
    }

    pub fn bottom(&self) -> (b: i128)
        ensures
            b == self.bottom_edge(),
    {
        self.y as i128 + self.height as i128
    }

    /// Bounding union of two well-formed rectangles.
    pub fn union(&self, other: &Rect) -> (u: Rect)
        requires
            self.wf(),
            other.wf(),
        ensures
            u == self.bounding_union(*other),
            u.wf(),
            u.encloses(*self),
            u.encloses(*other),
    {
        let x0 = if self.x <= other.x {
            self.x
        } else {
            other.x
        };
        let y0 = if self.y <= other.y {
            self.y
        } else {
            other.y
        };
        let x1 = if self.x + self.width >= other.x + other.width {
            self.x + self.width
        } else {
            other.x + other.width
        };
        let y1 = if self.y + self.height >= other.y + other.height {
            self.y + self.height
        } else {
            other.y + other.height
        };
        Rect { x: x0, y: y0, width: x1 - x0, height: y1 - y0 }
    }

    pub fn area(&self) -> (a: i128)
        requires
            self.wf(),
        ensures
            a == self.spec_area(),
            0 <= a <= 0x1_0000_0000 * 0x1_0000_0000,
    {
        proof {
            assert(0 <= self.width * self.height <= 0x1_0000_0000 * 0x1_0000_0000) by (nonlinear_arith)
                requires
                    0 <= self.width <= 0x1_0000_0000,
                    0 <= self.height <= 0x1_0000_0000,
            ;
        }
        self.width as i128 * self.height as i128
    }

    fn overlap_length(a0: i128, a1: i128, b0: i128, b1: i128) -> (l: i128)
        requires
            -0x1_0000_0000_0000_0000 <= a0 <= 0x1_0000_0000_0000_0000,
            -0x1_0000_0000_0000_0000 <= a1 <= 0x1_0000_0000_0000_0000,
            -0x1_0000_0000_0000_0000 <= b0 <= 0x1_0000_0000_0000_0000,
            -0x1_0000_0000_0000_0000 <= b1 <= 0x1_0000_0000_0000_0000,
        ensures
            l == Rect::overlap_len(a0 as int, a1 as int, b0 as int, b1 as int),
    {
        let lo = if a0 >= b0 {
            a0
        } else {
            b0
        };
        let hi = if a1 <= b1 {
            a1
        } else {
            b1
        };
        if hi > lo {
            hi - lo
        } else {
            0
        }
    }

    pub fn intersection_area(&self, other: &Rect) -> (a: i128)
        requires
            self.wf(),
            other.wf(),
        ensures
            a == self.spec_intersection_area(*other),
            0 <= a <= 0x1_0000_0000 * 0x1_0000_0000,
    {
        let w = Rect::overlap_length(self.x as i128, self.right(), other.x as i128, other.right());
        let h = Rect::overlap_length(
            self.y as i128,
            self.bottom(),
            other.y as i128,
            other.bottom(),
        );
        proof {
            assert(0 <= w * h <= 0x1_0000_0000 * 0x1_0000_0000) by (nonlinear_arith)
                requires
                    0 <= w <= 0x1_0000_0000,
                    0 <= h <= 0x1_0000_0000,
            ;
        }
        w * h
    }

    /// `other` lies entirely inside `self`.
    pub fn contains_rect(&self, other: &Rect) -> (b: bool)
        ensures
            b == self.encloses(*other),
    {
        self.x <= other.x && self.y <= other.y && other.right() <= self.right() && other.bottom()
            <= self.bottom()
    }

    /// The two rectangles share interior area.
    pub fn intersects(&self, other: &Rect) -> (b: bool)
        ensures
            b == self.overlaps(*other),
    {
        (self.x as i128) < other.right() && (other.x as i128) < self.right() && (self.y as i128)
            < other.bottom() && (other.y as i128) < self.bottom()
    }
}

/// Enclosure is transitive.
pub proof fn lemma_encloses_trans(a: Rect, b: Rect, c: Rect)
    requires
        a.encloses(b),
        b.encloses(c),
    ensures
        a.encloses(c),
{
}

/// Every pixel of an enclosed rectangle is a pixel of the enclosing one.
pub proof fn lemma_encloses_points(a: Rect, b: Rect, px: int, py: int)
    requires
        a.encloses(b),
        b.has_point(px, py),
    ensures
        a.has_point(px, py),
{
}

/// Rectangles whose interiors do not meet share no pixel.
pub proof fn lemma_disjoint_no_common_point(a: Rect, b: Rect, px: int, py: int)
    requires
        !a.overlaps(b),
    ensures
        !(a.has_point(px, py) && b.has_point(px, py)),
{
}

/// Intersection of two rectangles; a zero-size rectangle at the clipped
/// origin when they do not overlap.
pub fn intersect_rects(a: Rect, b: Rect) -> (r: Rect)
    requires
        a.wf(),
        b.wf(),
    ensures
        r == a.clipped_to(b),
        r.wf(),
{
    let x = if a.x >= b.x {
        a.x
    } else {
        b.x
    };
    let y = if a.y >= b.y {
        a.y
    } else {
        b.y
    };
    let r = if a.x + a.width <= b.x + b.width {
        a.x + a.width
    } else {
        b.x + b.width
    };
    let btm = if a.y + a.height <= b.y + b.height {
        a.y + a.height
    } else {
        b.y + b.height
    };
    if r > x && btm > y {
        Rect::new(x, y, r - x, btm - y)
    } else {
        Rect::new(x, y, 0, 0)
    }
}

} // verus!
