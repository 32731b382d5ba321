//! Plain stand-ins for display resources: colors, font metrics and icons.

use vstd::prelude::*;

verus! {

/// A packed 16-bit RGB565 color.
#[derive(Clone, Copy, PartialEq, Eq, Debug, Structural)]
pub struct Color {
    pub rgb565: u16,
}

impl Color {
    pub fn new(rgb565: u16) -> (r: Self)
        ensures
            r == (Color { rgb565 }),
    {
        Color { rgb565 }
    }
}

/// Metrics of a font face, as the glyph data fixes them.
#[derive(Clone, Copy, PartialEq, Eq, Debug, Structural)]
pub struct Font {
    /// Vertical advance from one text line to the next.
    pub line_height: i16,
    /// Full height of the glyph box.
    pub text_height: i16,
    /// Visible height of the digit glyphs, used to align button baselines.
    pub digit_height: i16,
}

impl Font {
    /// Visible height of the reference digit used for baseline alignment.
    pub fn visible_digit_height(&self) -> (h: i16)
        ensures
            h == self.digit_height,
    {
        self.digit_height
    }
}

/// A raster icon with its pixel size.
#[derive(Clone, Copy, PartialEq, Eq, Debug, Structural)]
pub struct Icon {
    pub width: i16,
    pub height: i16,
}

impl Icon {
    pub fn height(&self) -> (h: i16)
        ensures
            h == self.height,
    {
        self.height
    }
}

/// How one run of text is drawn.
#[derive(Clone, Copy, PartialEq, Eq, Debug, Structural)]
pub struct TextStyle {
    pub text_font: Font,
    pub text_color: Color,
    pub background_color: Color,
}

} // verus!
