//! Screen geometry: offsets, points, rectangles and insets on a
//! 16-bit-coordinate display.

use vstd::prelude::*;

verus! {

/// A relative move in screen coordinates.
#[derive(Clone, Copy, PartialEq, Eq, Debug, Structural)]
pub struct Offset {
    pub x: i16,
    pub y: i16,
}

impl Offset {
    pub fn new(x: i16, y: i16) -> (r: Self)
        ensures
            r == (Offset { x, y }),
    {
        Offset { x, y }
    }

    pub fn zero() -> (r: Self)
        ensures
            r == (Offset { x: 0i16, y: 0i16 }),
    {
        Offset { x: 0, y: 0 }
    }

    pub fn x(x: i16) -> (r: Self)
        ensures
            r == (Offset { x, y: 0i16 }),
    {
        Offset { x, y: 0 }
    }

    pub fn y(y: i16) -> (r: Self)
        ensures
            r == (Offset { x: 0i16, y }),
    {
        Offset { x: 0, y }
    }

    /// The opposite move.
    pub fn neg(self) -> (r: Self)
        requires
            self.x > i16::MIN,
            self.y > i16::MIN,
        ensures
            r.x == -self.x,
            r.y == -self.y,
    {
        Offset { x: -self.x, y: -self.y }
    }
}

/// An absolute position in screen coordinates.
#[derive(Clone, Copy, PartialEq, Eq, Debug, Structural)]
pub struct Point {
    pub x: i16,
    pub y: i16,
}

impl Point {
    pub fn new(x: i16, y: i16) -> (r: Self)
        ensures
            r == (Point { x, y }),
    {
        Point { x, y }
    }

    pub fn zero() -> (r: Self)
        ensures
            r == (Point { x: 0i16, y: 0i16 }),
    {
        Point { x: 0, y: 0 }
    }

    /// The point moved by an offset.
    pub fn ofs(self, ofs: Offset) -> (r: Self)
        requires
            i16::MIN <= self.x + ofs.x <= i16::MAX,
            i16::MIN <= self.y + ofs.y <= i16::MAX,
        ensures
            r.x == self.x + ofs.x,
            r.y == self.y + ofs.y,
    {
        Point { x: self.x + ofs.x, y: self.y + ofs.y }
    }
}

/// Margins around a rectangle's four sides.
#[derive(Clone, Copy, PartialEq, Eq, Debug, Structural)]
pub struct Insets {
    pub top: i16,
    pub right: i16,
    pub bottom: i16,
    pub left: i16,
}

impl Insets {
    pub fn new(top: i16, right: i16, bottom: i16, left: i16) -> (r: Self)
        ensures
            r == (Insets { top, right, bottom, left }),
    {
        Insets { top, right, bottom, left }
    }

    pub fn uniform(d: i16) -> (r: Self)
        ensures
            r == (Insets { top: d, right: d, bottom: d, left: d }),
    {
        Insets { top: d, right: d, bottom: d, left: d }
    }
}

/// An axis-aligned rectangle: top-left corner inclusive, bottom-right
/// exclusive.
#[derive(Clone, Copy, PartialEq, Eq, Debug, Structural)]
pub struct Rect {
    pub x0: i16,
    pub y0: i16,
    pub x1: i16,
    pub y1: i16,
}

impl Rect {
    pub fn new(top_left: Point, bottom_right: Point) -> (r: Self)
        ensures
            r == (Rect { x0: top_left.x, y0: top_left.y, x1: bottom_right.x, y1: bottom_right.y }),
    {
        Rect { x0: top_left.x, y0: top_left.y, x1: bottom_right.x, y1: bottom_right.y }
    }

    pub fn zero() -> (r: Self)
        ensures
            r == (Rect { x0: 0i16, y0: 0i16, x1: 0i16, y1: 0i16 }),
    {
        Rect { x0: 0, y0: 0, x1: 0, y1: 0 }
    }

    pub fn from_top_left_and_size(p: Point, size: Offset) -> (r: Self)
        requires
            i16::MIN <= p.x + size.x <= i16::MAX,
            i16::MIN <= p.y + size.y <= i16::MAX,
        ensures
            r.x0 == p.x,
            r.y0 == p.y,
            r.x1 == p.x + size.x,
            r.y1 == p.y + size.y,
    {
        Rect { x0: p.x, y0: p.y, x1: p.x + size.x, y1: p.y + size.y }
    }

    pub fn width(&self) -> (w: i16)
        requires
            i16::MIN <= self.x1 - self.x0 <= i16::MAX,
        ensures
            w == self.x1 - self.x0,
    {
        self.x1 - self.x0
    }

    pub fn height(&self) -> (h: i16)
        requires
            i16::MIN <= self.y1 - self.y0 <= i16::MAX,
        ensures
            h == self.y1 - self.y0,
    {
        self.y1 - self.y0
    }

    /// Whether a touch position falls inside the rectangle.
    pub fn contains(&self, p: Point) -> (r: bool)
        ensures
            r == (self.x0 <= p.x < self.x1 && self.y0 <= p.y < self.y1),
    {
        self.x0 <= p.x && p.x < self.x1 && self.y0 <= p.y && p.y < self.y1
    }

    /// Whether the rectangle's corners are ordered and its arithmetic stays
    /// in range.
    pub open spec fn wf(self) -> bool {
        self.x0 <= self.x1 && self.y0 <= self.y1 && self.x1 - self.x0 <= i16::MAX && self.y1
            - self.y0 <= i16::MAX
    }

    /// Whether growing by `i` stays within coordinate range.
    pub open spec fn outset_in_range(self, i: Insets) -> bool {
        i16::MIN <= self.x0 - i.left <= i16::MAX && i16::MIN <= self.x1 + i.right <= i16::MAX
            && i16::MIN <= self.y0 - i.top <= i16::MAX && i16::MIN <= self.y1 + i.bottom
            <= i16::MAX
    }

    /// The rectangle grown by the given margins.
    pub fn outset(&self, i: Insets) -> (r: Rect)
        requires
            self.outset_in_range(i),
        ensures
            r.x0 == self.x0 - i.left,
            r.y0 == self.y0 - i.top,
            r.x1 == self.x1 + i.right,
            r.y1 == self.y1 + i.bottom,
    {
        Rect {
            x0: self.x0 - i.left,
            y0: self.y0 - i.top,
            x1: self.x1 + i.right,
            y1: self.y1 + i.bottom,
        }
    }

    /// The rectangle's midpoint.
    pub fn center(&self) -> (r: Point)
        requires
            self.wf(),
        ensures
            r.x == self.x0 + (self.x1 - self.x0) / 2,
            r.y == self.y0 + (self.y1 - self.y0) / 2,
    {
        Point { x: self.x0 + (self.x1 - self.x0) / 2, y: self.y0 + (self.y1 - self.y0) / 2 }
    }

    /// Midpoint of the left edge.
    pub fn left_center(&self) -> (r: Point)
        requires
            self.wf(),
        ensures
            r.x == self.x0,
            r.y == self.y0 + (self.y1 - self.y0) / 2,
    {
        Point { x: self.x0, y: self.y0 + (self.y1 - self.y0) / 2 }
    }

    /// Midpoint of the right edge.
    pub fn right_center(&self) -> (r: Point)
        requires
            self.wf(),
        ensures
            r.x == self.x1,
            r.y == self.y0 + (self.y1 - self.y0) / 2,
    {
        Point { x: self.x1, y: self.y0 + (self.y1 - self.y0) / 2 }
    }
}

/// Horizontal text alignment.
#[derive(Clone, Copy, PartialEq, Eq, Debug, Structural)]
pub enum Alignment {
    Start,
    Center,
    End,
}

/// Which way a swipe gesture moved.
#[derive(Clone, Copy, PartialEq, Eq, Debug, Structural)]
pub enum Direction {
    Up,
    Down,
    Left,
    Right,
}

} // verus!
