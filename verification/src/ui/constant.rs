//! Fixed dimensions of the device's display.

use vstd::prelude::*;
use crate::ui::geometry::{Offset, Point, Rect};

verus! {

pub const WIDTH: i16 = 380;

pub const HEIGHT: i16 = 520;

pub const LINE_SPACE: i16 = 4;

pub const FONT_BPP: i16 = 4;

/// The display size as an offset.
pub fn size() -> (r: Offset)
    ensures
        r == (Offset { x: WIDTH, y: HEIGHT }),
{
    Offset::new(WIDTH, HEIGHT)
}

/// The whole screen as a rectangle anchored at the origin.
pub fn screen() -> (r: Rect)
    ensures
        r == (Rect { x0: 0i16, y0: 0i16, x1: WIDTH, y1: HEIGHT }),
{
    Rect::from_top_left_and_size(Point::zero(), size())
}

} // verus!
