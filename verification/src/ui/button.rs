//! A touchable button: builder-style configuration and the press/release
//! state machine, kept apart from any rendering backend.

use vstd::prelude::*;
use crate::ui::component::{Duration, Event, EventCtx, Timer, TouchEvent};
use crate::ui::display::{Icon, TextStyle};
use crate::ui::geometry::{Alignment, Insets, Offset, Point, Rect};
use crate::ui::theme;

verus! {

/// What a button reports to its owner.
#[derive(Clone, Copy, PartialEq, Eq, Debug, Structural)]
pub enum ButtonMsg {
    Pressed,
    Released,
    Clicked,
    LongPressed,
}

/// Interaction state of a button.
#[derive(Clone, Copy, PartialEq, Eq, Debug, Structural)]
pub enum State {
    Initial,
    Pressed,
    Released,
    Disabled,
}

impl State {
    /// Whether the button is in a normal state: neither pressed nor
    /// disabled.
    pub fn is_normal(&self) -> (r: bool)
        ensures
            r == (*self == State::Initial || *self == State::Released),
    {
        matches!(self, State::Initial | State::Released)
    }
}

/// What a button displays.
#[derive(Clone, Copy, Debug)]
pub enum ButtonContent {
    Empty,
    Text(&'static str),
    TextAndSubtext { text: &'static str, subtext: &'static str, subtext_style: TextStyle },
    Icon(Icon),
    IconAndText(IconText),
    HomeBar(Option<&'static str>),
}

/// How a button is drawn in one interaction state.
#[derive(Clone, Copy, PartialEq, Eq, Debug, Structural)]
pub struct ButtonStyle {
    pub font: crate::ui::display::Font,
    pub text_color: crate::ui::display::Color,
    pub button_color: crate::ui::display::Color,
    pub icon_color: crate::ui::display::Color,
    pub background_color: crate::ui::display::Color,
}

/// One style per interaction state.
#[derive(Clone, Copy, PartialEq, Eq, Debug, Structural)]
pub struct ButtonStyleSheet {
    pub normal: ButtonStyle,
    pub active: ButtonStyle,
    pub disabled: ButtonStyle,
}

/// An icon beside a caption.
#[derive(Clone, Copy, Debug)]
pub struct IconText {
    pub text: &'static str,
    pub icon: Icon,
}

impl IconText {
    pub fn new(text: &'static str, icon: Icon) -> (r: Self)
        ensures
            r.text == text,
            r.icon == icon,
    {
        IconText { text, icon }
    }
}

pub const MENU_ITEM_RADIUS: u8 = 12;
pub const MENU_ITEM_CONTENT_OFFSET_X: i16 = 12;

/// A touchable button.
pub struct Button {
    pub area: Rect,
    pub touch_expand: Option<Insets>,
    pub content: ButtonContent,
    pub content_offset: Offset,
    pub stylesheet: ButtonStyleSheet,
    pub text_align: Alignment,
    pub radius: Option<u8>,
    pub state: State,
    pub long_press: Option<Duration>,
    pub long_timer: Timer,
    pub haptic: bool,
    pub gradient: bool,
}

impl Button {
    /// A fresh button showing `content`, with default looks, enabled.
    pub fn new(content: ButtonContent) -> (r: Self)
        ensures
            r.content == content,
            r.content_offset == (Offset { x: 0i16, y: 0i16 }),
            r.area == (Rect { x0: 0i16, y0: 0i16, x1: 0i16, y1: 0i16 }),
            r.touch_expand is None,
            r.stylesheet == theme::spec_button_default(),
            r.text_align == Alignment::Center,
            r.radius is None,
            r.state == State::Initial,
            r.long_press is None,
            r.long_timer.token is None,
            r.haptic == true,
            r.gradient == false,
    {
        Button {
            content,
            content_offset: Offset::zero(),
            area: Rect::zero(),
            touch_expand: None,
            stylesheet: theme::button_default(),
            text_align: Alignment::Center,
            radius: None,
            state: State::Initial,
            long_press: None,
            long_timer: Timer::new(),
            haptic: true,
            gradient: false,
        }
    }

    /// A left-aligned, rounded menu entry.
    pub fn new_menu_item(text: &'static str, stylesheet: ButtonStyleSheet) -> (r: Self)
        ensures
            r.content == ButtonContent::Text(text),
            r.text_align == Alignment::Start,
            r.content_offset == (Offset { x: MENU_ITEM_CONTENT_OFFSET_X, y: 0i16 }),
            r.stylesheet == stylesheet,
            r.radius == Some(MENU_ITEM_RADIUS),
            r.state == State::Initial,
    {
        Self::with_text(text).with_text_align(Alignment::Start).with_content_offset(
            Offset::x(MENU_ITEM_CONTENT_OFFSET_X),
        ).styled(stylesheet).with_radius(MENU_ITEM_RADIUS)
    }

    /// A menu entry carrying a second line of text.
    pub fn new_menu_item_with_subtext(
        text: &'static str,
        stylesheet: ButtonStyleSheet,
        subtext: &'static str,
        subtext_style: Option<TextStyle>,
    ) -> (r: Self)
        ensures
            r.content == (ButtonContent::TextAndSubtext {
                text,
                subtext,
                subtext_style: (match subtext_style {
                    Some(s) => s,
                    None => theme::label_menu_item_subtitle_spec(),
                }),
            }),
            r.text_align == Alignment::Start,
            r.content_offset == (Offset { x: MENU_ITEM_CONTENT_OFFSET_X, y: 0i16 }),
            r.stylesheet == stylesheet,
            r.radius == Some(MENU_ITEM_RADIUS),
            r.state == State::Initial,
    {
        Self::with_text_and_subtext(text, subtext, subtext_style).with_text_align(
            Alignment::Start,
        ).with_content_offset(Offset::x(MENU_ITEM_CONTENT_OFFSET_X)).styled(
            stylesheet,
        ).with_radius(MENU_ITEM_RADIUS)
    }

    /// A fresh button showing a caption.
    pub fn with_text(text: &'static str) -> (r: Self)
        ensures
            r == Self::spec_new(ButtonContent::Text(text)),
    {
        Self::new(ButtonContent::Text(text))
    }

    /// A fresh button showing a caption over a subtitle.
    pub fn with_text_and_subtext(
        text: &'static str,
        subtext: &'static str,
        subtext_style: Option<TextStyle>,
    ) -> (r: Self)
        ensures
            r == Self::spec_new(
                ButtonContent::TextAndSubtext {
                    text,
                    subtext,
                    subtext_style: (match subtext_style {
                        Some(s) => s,
                        None => theme::label_menu_item_subtitle_spec(),
                    }),
                },
            ),
    {
        let style = match subtext_style {
            Some(s) => s,
            None => theme::label_menu_item_subtitle(),
        };
        Self::new(ButtonContent::TextAndSubtext { text, subtext, subtext_style: style })
    }

    /// A fresh button showing an icon.
    pub fn with_icon(icon: Icon) -> (r: Self)
        ensures
            r == Self::spec_new(ButtonContent::Icon(icon)),
    {
        Self::new(ButtonContent::Icon(icon))
    }

    /// A fresh button showing an icon beside a caption.
    pub fn with_icon_and_text(content: IconText) -> (r: Self)
        ensures
            r == Self::spec_new(ButtonContent::IconAndText(content)),
    {
        Self::new(ButtonContent::IconAndText(content))
    }

    /// A fresh home-bar button, optionally captioned.
    pub fn with_homebar_content(text: Option<&'static str>) -> (r: Self)
        ensures
            r == Self::spec_new(ButtonContent::HomeBar(text)),
    {
        Self::new(ButtonContent::HomeBar(text))
    }

    /// A fresh button showing nothing.
    pub fn empty() -> (r: Self)
        ensures
            r == Self::spec_new(ButtonContent::Empty),
    {
        Self::new(ButtonContent::Empty)
    }

    /// The value `new` builds.
    pub open spec fn spec_new(content: ButtonContent) -> Button {
        Button {
            content,
            content_offset: Offset { x: 0i16, y: 0i16 },
            area: Rect { x0: 0i16, y0: 0i16, x1: 0i16, y1: 0i16 },
            touch_expand: None,
            stylesheet: theme::spec_button_default(),
            text_align: Alignment::Center,
            radius: None,
            state: State::Initial,
            long_press: None,
            long_timer: Timer { token: None },
            haptic: true,
            gradient: false,
        }
    }

    pub fn styled(self, stylesheet: ButtonStyleSheet) -> (r: Self)
        ensures
            r == (Button { stylesheet, ..self }),
    {
        Button { stylesheet, ..self }
    }

    pub fn with_text_align(self, align: Alignment) -> (r: Self)
        ensures
            r == (Button { text_align: align, ..self }),
    {
        Button { text_align: align, ..self }
    }

    pub fn with_content_offset(self, offset: Offset) -> (r: Self)
        ensures
            r == (Button { content_offset: offset, ..self }),
    {
        Button { content_offset: offset, ..self }
    }

    pub fn with_expanded_touch_area(self, expand: Insets) -> (r: Self)
        ensures
            r == (Button { touch_expand: Some(expand), ..self }),
    {
        Button { touch_expand: Some(expand), ..self }
    }

    pub fn with_long_press(self, duration: Duration) -> (r: Self)
        ensures
            r == (Button { long_press: Some(duration), ..self }),
    {
        Button { long_press: Some(duration), ..self }
    }

    /// Rounded corners; not combined with a gradient background.
    pub fn with_radius(self, radius: u8) -> (r: Self)
        requires
            !self.gradient,
        ensures
            r == (Button { radius: Some(radius), ..self }),
    {
        Button { radius: Some(radius), ..self }
    }

    pub fn without_haptics(self) -> (r: Self)
        ensures
            r == (Button { haptic: false, ..self }),
    {
        Button { haptic: false, ..self }
    }

    /// Gradient background; not combined with rounded corners.
    pub fn with_gradient(self) -> (r: Self)
        requires
            self.radius is None,
        ensures
            r == (Button { gradient: true, ..self }),
    {
        Button { gradient: true, ..self }
    }

    pub fn enable_if(&mut self, ctx: &mut EventCtx, enabled: bool) -> (r: ())
        ensures
            *final(self) == (Button {
                state: if enabled {
                    State::Initial
                } else {
                    State::Disabled
                },
                ..*old(self)
            }),
            final(ctx).paint_requested == (old(ctx).paint_requested || final(self).state != old(
                self,
            ).state),
            final(ctx).timer_requests == old(ctx).timer_requests,
            final(ctx).next_token == old(ctx).next_token,
    {
        if enabled {
            self.enable(ctx);
        } else {
            self.disable(ctx);
        }
    }

    pub fn initially_enabled(self, enabled: bool) -> (r: Self)
        ensures
            r == (Button {
                state: if enabled {
                    self.state
                } else {
                    State::Disabled
                },
                ..self
            }),
    {
        if !enabled {
            Button { state: State::Disabled, ..self }
        } else {
            self
        }
    }

    pub fn enable(&mut self, ctx: &mut EventCtx) -> (r: ())
        ensures
            *final(self) == (Button { state: State::Initial, ..*old(self) }),
            final(ctx).paint_requested == (old(ctx).paint_requested || old(self).state
                != State::Initial),
            final(ctx).timer_requests == old(ctx).timer_requests,
            final(ctx).next_token == old(ctx).next_token,
    {
        self.set(ctx, State::Initial)
    }

    pub fn disable(&mut self, ctx: &mut EventCtx) -> (r: ())
        ensures
            *final(self) == (Button { state: State::Disabled, ..*old(self) }),
            final(ctx).paint_requested == (old(ctx).paint_requested || old(self).state
                != State::Disabled),
            final(ctx).timer_requests == old(ctx).timer_requests,
            final(ctx).next_token == old(ctx).next_token,
    {
        self.set(ctx, State::Disabled)
    }

    pub fn is_enabled(&self) -> (r: bool)
        ensures
            r == (self.state != State::Disabled),
    {
        matches!(self.state, State::Initial | State::Pressed | State::Released)
    }

    pub fn is_pressed(&self) -> (r: bool)
        ensures
            r == (self.state == State::Pressed),
    {
        matches!(self.state, State::Pressed)
    }

    pub fn long_press(&self) -> (r: Option<Duration>)
        ensures
            r == self.long_press,
    {
        self.long_press
    }

    pub fn is_disabled(&self) -> (r: bool)
        ensures
            r == (self.state == State::Disabled),
    {
        matches!(self.state, State::Disabled)
    }

    pub fn set_content(&mut self, content: ButtonContent) -> (r: ())
        ensures
            *final(self) == (Button { content, ..*old(self) }),
    {
        self.content = content;
    }

    pub fn set_expanded_touch_area(&mut self, expand: Insets) -> (r: ())
        ensures
            *final(self) == (Button { touch_expand: Some(expand), ..*old(self) }),
    {
        self.touch_expand = Some(expand);
    }

    pub fn set_content_offset(&mut self, offset: Offset) -> (r: ())
        ensures
            *final(self) == (Button { content_offset: offset, ..*old(self) }),
    {
        self.content_offset = offset;
    }

    pub fn content(&self) -> (r: &ButtonContent)
        ensures
            *r == self.content,
    {
        &self.content
    }

    pub fn content_offset(&self) -> (r: Offset)
        ensures
            r == self.content_offset,
    {
        self.content_offset
    }

    /// Visible height of the caption baseline, from the active style's font.
    fn baseline_text_height(&self) -> (h: i16)
        ensures
            h == self.spec_style().font.digit_height,
    {
        self.style().font.visible_digit_height()
    }

    /// Height the content needs inside the button.
    pub fn content_height(&self) -> (h: i16)
        requires
            (self.content matches ButtonContent::TextAndSubtext { subtext_style, .. }
                ==> i16::MIN <= self.spec_style().font.line_height
                + subtext_style.text_font.text_height <= i16::MAX),
        ensures
            h == (match self.content {
                ButtonContent::Empty => 0i16 as int,
                ButtonContent::Text(_) => self.spec_style().font.digit_height as int,
                ButtonContent::Icon(icon) => icon.height as int,
                ButtonContent::IconAndText(child) => (if self.spec_style().font.digit_height
                    >= child.icon.height {
                    self.spec_style().font.digit_height as int
                } else {
                    child.icon.height as int
                }),
                ButtonContent::TextAndSubtext { subtext_style, .. } => self.spec_style(
                ).font.line_height + subtext_style.text_font.text_height,
                ButtonContent::HomeBar(_) => theme::ACTION_BAR_HEIGHT as int,
            }),
    {
        match &self.content {
            ButtonContent::Empty => 0,
            ButtonContent::Text(_) => self.baseline_text_height(),
            ButtonContent::Icon(icon) => icon.height(),
            ButtonContent::IconAndText(child) => {
                let text_height = self.baseline_text_height();
                let icon_height = child.icon.height();
                if text_height >= icon_height {
                    text_height
                } else {
                    icon_height
                }
            },
            ButtonContent::TextAndSubtext { subtext_style, .. } => self.style().font.line_height
                + subtext_style.text_font.text_height,
            ButtonContent::HomeBar(_) => theme::ACTION_BAR_HEIGHT,
        }
    }

    pub fn set_stylesheet(&mut self, stylesheet: ButtonStyleSheet) -> (r: ())
        ensures
            *final(self) == (Button { stylesheet, ..*old(self) }),
    {
        self.stylesheet = stylesheet;
    }

    /// The style the current interaction state selects.
    pub open spec fn spec_style(&self) -> ButtonStyle {
        match self.state {
            State::Initial | State::Released => self.stylesheet.normal,
            State::Pressed => self.stylesheet.active,
            State::Disabled => self.stylesheet.disabled,
        }
    }

    /// The style the current interaction state selects.
    pub fn style(&self) -> (r: &ButtonStyle)
        ensures
            *r == self.spec_style(),
    {
        match self.state {
            State::Initial | State::Released => &self.stylesheet.normal,
            State::Pressed => &self.stylesheet.active,
            State::Disabled => &self.stylesheet.disabled,
        }
    }

    pub fn stylesheet(&self) -> (r: &ButtonStyleSheet)
        ensures
            *r == self.stylesheet,
    {
        &self.stylesheet
    }

    pub fn area(&self) -> (r: Rect)
        ensures
            r == self.area,
    {
        self.area
    }

    /// The area that accepts touches: the placed area, grown by the
    /// configured expansion.
    pub fn touch_area(&self) -> (r: Rect)
        requires
            self.touch_area_in_range(),
        ensures
            r == self.spec_touch_area(),
    {
        match self.touch_expand {
            Some(expand) => self.area.outset(expand),
            None => self.area,
        }
    }

    /// Whether the touch-area arithmetic stays in coordinate range.
    pub open spec fn touch_area_in_range(&self) -> bool {
        self.touch_expand matches Some(e) ==> self.area.outset_in_range(e)
    }

    /// The touch area's value.
    pub open spec fn spec_touch_area(&self) -> Rect {
        match self.touch_expand {
            Some(e) => Rect {
                x0: (self.area.x0 - e.left) as i16,
                y0: (self.area.y0 - e.top) as i16,
                x1: (self.area.x1 + e.right) as i16,
                y1: (self.area.y1 + e.bottom) as i16,
            },
            None => self.area,
        }
    }

    /// Moves to `state`, requesting a repaint when that is a change.
    fn set(&mut self, ctx: &mut EventCtx, state: State) -> (r: ())
        ensures
            *final(self) == (Button { state, ..*old(self) }),
            final(ctx).paint_requested == (old(ctx).paint_requested || old(self).state != state),
            final(ctx).timer_requests == old(ctx).timer_requests,
            final(ctx).next_token == old(ctx).next_token,
    {
        if self.state != state {
            self.state = state;
            ctx.request_paint();
        }
    }

    /// Lays the button out.
    pub fn place(&mut self, bounds: Rect) -> (r: Rect)
        ensures
            *final(self) == (Button { area: bounds, ..*old(self) }),
            r == bounds,
    {
        self.area = bounds;
        self.area
    }

    /// The press/release state machine: where the new state, the reported
    /// message and the long-press timer come from for each event.
    pub open spec fn spec_event(
        self,
        fresh_token: u32,
        event: Event,
    ) -> (State, Option<ButtonMsg>, Option<u32>) {
        let ta = self.spec_touch_area();
        match event {
            Event::Touch(TouchEvent::TouchStart(pos)) => {
                if self.state == State::Disabled {
                    (self.state, None, self.long_timer.token)
                } else if spec_contains(ta, pos) {
                    (
                        State::Pressed,
                        Some(ButtonMsg::Pressed),
                        if self.long_press is Some {
                            Some(fresh_token)
                        } else {
                            self.long_timer.token
                        },
                    )
                } else {
                    (self.state, None, self.long_timer.token)
                }
            },
            Event::Touch(TouchEvent::TouchMove(pos)) => {
                if self.state == State::Pressed && !spec_contains(ta, pos) {
                    (State::Released, Some(ButtonMsg::Released), self.long_timer.token)
                } else {
                    (self.state, None, self.long_timer.token)
                }
            },
            Event::Touch(TouchEvent::TouchEnd(pos)) => {
                if self.state == State::Initial || self.state == State::Disabled {
                    (self.state, None, self.long_timer.token)
                } else if self.state == State::Pressed && spec_contains(ta, pos) {
                    (State::Initial, Some(ButtonMsg::Clicked), self.long_timer.token)
                } else if self.state == State::Pressed {
                    (State::Initial, Some(ButtonMsg::Released), None)
                } else {
                    (State::Initial, None, None)
                }
            },
            Event::Swipe(_) => {
                if self.state == State::Initial || self.state == State::Disabled {
                    (self.state, None, self.long_timer.token)
                } else if self.state == State::Pressed {
                    (State::Initial, Some(ButtonMsg::Released), None)
                } else {
                    (State::Initial, None, None)
                }
            },
            Event::Timer(tok) => {
                if self.long_timer.token == Some(tok) {
                    if self.state == State::Pressed {
                        (State::Initial, Some(ButtonMsg::LongPressed), None)
                    } else {
                        (self.state, None, None)
                    }
                } else {
                    (self.state, None, self.long_timer.token)
                }
            },
        }
    }

    /// Feeds one event to the button.
    pub fn event(&mut self, ctx: &mut EventCtx, event: Event) -> (r: Option<ButtonMsg>)
        requires
            old(self).touch_area_in_range(),
            old(ctx).next_token < u32::MAX,
        ensures
            ({
                let (state, msg, token) = old(self).spec_event(old(ctx).next_token, event);
                &&& r == msg
                &&& *final(self) == (Button {
                    state,
                    long_timer: Timer { token },
                    ..*old(self)
                })
                &&& final(ctx).paint_requested == (old(ctx).paint_requested || state != old(
                    self,
                ).state)
            }),
    {
        let touch_area = self.touch_area();
        match event {
            Event::Touch(TouchEvent::TouchStart(pos)) => {
                match self.state {
                    State::Disabled => {},
                    _ => {
                        if touch_area.contains(pos) {
                            self.set(ctx, State::Pressed);
                            if let Some(duration) = self.long_press {
                                self.long_timer.start(ctx, duration);
                            }
                            return Some(ButtonMsg::Pressed);
                        }
                    },
                }
            },
            Event::Touch(TouchEvent::TouchMove(pos)) => {
                match self.state {
                    State::Pressed => {
                        if !touch_area.contains(pos) {
                            self.set(ctx, State::Released);
                            return Some(ButtonMsg::Released);
                        }
                    },
                    _ => {},
                }
            },
            Event::Touch(TouchEvent::TouchEnd(pos)) => {
                match self.state {
                    State::Initial | State::Disabled => {},
                    State::Pressed => {
                        if touch_area.contains(pos) {
                            self.set(ctx, State::Initial);
                            return Some(ButtonMsg::Clicked);
                        }
                        self.set(ctx, State::Initial);
                        self.long_timer.stop();
                        return Some(ButtonMsg::Released);
                    },
                    _ => {
                        self.set(ctx, State::Initial);
                        self.long_timer.stop();
                    },
                }
            },
            Event::Swipe(_) => {
                match self.state {
                    State::Initial | State::Disabled => {},
                    State::Pressed => {
                        self.set(ctx, State::Initial);
                        self.long_timer.stop();
                        return Some(ButtonMsg::Released);
                    },
                    _ => {
                        self.set(ctx, State::Initial);
                        self.long_timer.stop();
                    },
                }
            },
            Event::Timer(_) => {
                if self.long_timer.expire(event) {
                    if matches!(self.state, State::Pressed) {
                        self.set(ctx, State::Initial);
                        return Some(ButtonMsg::LongPressed);
                    }
                }
            },
        }
        None
    }
}

/// Whether a touch position falls inside a rectangle.
pub open spec fn spec_contains(r: Rect, p: Point) -> bool {
    r.x0 <= p.x < r.x1 && r.y0 <= p.y < r.y1
}

} // verus!
