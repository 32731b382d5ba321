//! Design tokens the components default to.

use vstd::prelude::*;
use crate::ui::display::{Color, Font, TextStyle};

verus! {

pub const ACTION_BAR_HEIGHT: i16 = 90;

/// The regular text font.
pub fn font_regular() -> (f: Font)
    ensures
        f == (Font { line_height: 42i16, text_height: 38i16, digit_height: 28i16 }),
{
    Font { line_height: 42, text_height: 38, digit_height: 28 }
}

/// Default style of a menu item's subtitle line.
pub fn label_menu_item_subtitle() -> (s: TextStyle)
    ensures
        s == (TextStyle {
            text_font: Font { line_height: 42i16, text_height: 38i16, digit_height: 28i16 },
            text_color: Color { rgb565: 0x8410u16 },
            background_color: Color { rgb565: 0u16 },
        }),
{
    TextStyle {
        text_font: font_regular(),
        text_color: Color { rgb565: 0x8410 },
        background_color: Color { rgb565: 0 },
    }
}

/// The subtitle style's value.
pub open spec fn label_menu_item_subtitle_spec() -> TextStyle {
    TextStyle {
        text_font: Font { line_height: 42i16, text_height: 38i16, digit_height: 28i16 },
        text_color: Color { rgb565: 0x8410u16 },
        background_color: Color { rgb565: 0u16 },
    }
}

/// Style a button starts out with.
pub fn button_default() -> (s: crate::ui::button::ButtonStyleSheet)
    ensures
        s == spec_button_default(),
{
    let style = crate::ui::button::ButtonStyle {
        font: font_regular(),
        text_color: Color { rgb565: 0xFFFF },
        button_color: Color { rgb565: 0x2104 },
        icon_color: Color { rgb565: 0xFFFF },
        background_color: Color { rgb565: 0 },
    };
    let active = crate::ui::button::ButtonStyle {
        font: font_regular(),
        text_color: Color { rgb565: 0xFFFF },
        button_color: Color { rgb565: 0x4208 },
        icon_color: Color { rgb565: 0xFFFF },
        background_color: Color { rgb565: 0 },
    };
    let disabled = crate::ui::button::ButtonStyle {
        font: font_regular(),
        text_color: Color { rgb565: 0x8410 },
        button_color: Color { rgb565: 0x2104 },
        icon_color: Color { rgb565: 0x8410 },
        background_color: Color { rgb565: 0 },
    };
    crate::ui::button::ButtonStyleSheet { normal: style, active, disabled }
}

/// The default stylesheet's value.
pub open spec fn spec_button_default() -> crate::ui::button::ButtonStyleSheet {
    crate::ui::button::ButtonStyleSheet {
        normal: crate::ui::button::ButtonStyle {
            font: Font { line_height: 42i16, text_height: 38i16, digit_height: 28i16 },
            text_color: Color { rgb565: 0xFFFFu16 },
            button_color: Color { rgb565: 0x2104u16 },
            icon_color: Color { rgb565: 0xFFFFu16 },
            background_color: Color { rgb565: 0u16 },
        },
        active: crate::ui::button::ButtonStyle {
            font: Font { line_height: 42i16, text_height: 38i16, digit_height: 28i16 },
            text_color: Color { rgb565: 0xFFFFu16 },
            button_color: Color { rgb565: 0x4208u16 },
            icon_color: Color { rgb565: 0xFFFFu16 },
            background_color: Color { rgb565: 0u16 },
        },
        disabled: crate::ui::button::ButtonStyle {
            font: Font { line_height: 42i16, text_height: 38i16, digit_height: 28i16 },
            text_color: Color { rgb565: 0x8410u16 },
            button_color: Color { rgb565: 0x2104u16 },
            icon_color: Color { rgb565: 0x8410u16 },
            background_color: Color { rgb565: 0u16 },
        },
    }
}

} // verus!
