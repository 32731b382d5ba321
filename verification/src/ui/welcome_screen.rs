//! The firmware welcome screen: a full-screen component that only holds the
//! area it was placed into.

use vstd::prelude::*;
use crate::ui::geometry::Rect;

verus! {

/// Firmware welcome screen.
pub struct WelcomeScreen {
    pub area: Rect,
}

impl WelcomeScreen {
    pub fn new() -> (r: Self)
        ensures
            r.area == (Rect { x0: 0i16, y0: 0i16, x1: 0i16, y1: 0i16 }),
    {
        WelcomeScreen { area: Rect::zero() }
    }

    /// Lays the screen out.
    pub fn place(&mut self, bounds: Rect) -> (r: Rect)
        ensures
            final(self).area == bounds,
            r == bounds,
    {
        self.area = bounds;
        self.area
    }
}

} // verus!
