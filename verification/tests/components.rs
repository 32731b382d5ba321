//! Checks of the modeled user-interface components: button builders, the
//! press/release state machine, timers and geometry.

use protowire::ui::button::{Button, ButtonContent, ButtonMsg};
use protowire::ui::flow::{Decision, FlowMsg, GetAddress};
use protowire::ui::component::{Duration, Event, EventCtx, Timer, TouchEvent};
use protowire::ui::constant;
use protowire::ui::geometry::{Alignment, Insets, Offset, Point, Rect};
use protowire::ui::theme;
use protowire::ui::welcome_screen::WelcomeScreen;

fn placed_button() -> Button {
    let mut b = Button::with_text("confirm");
    b.place(Rect::new(Point::new(0, 0), Point::new(100, 50)));
    b
}

#[test]
fn new_button_defaults() {
    let b = Button::with_text("confirm");
    assert!(b.is_enabled());
    assert!(!b.is_pressed());
    assert!(!b.is_disabled());
    assert!(b.long_press().is_none());
    match b.content() {
        ButtonContent::Text(t) => assert_eq!(*t, "confirm"),
        _ => panic!("expected a text button"),
    }
    assert_eq!(b.content_offset(), Offset::zero());
}

#[test]
fn click_inside_reports_pressed_then_clicked() {
    let mut b = placed_button();
    let mut ctx = EventCtx::new();
    let inside = Point::new(10, 10);
    let r1 = b.event(&mut ctx, Event::Touch(TouchEvent::TouchStart(inside)));
    assert_eq!(r1, Some(ButtonMsg::Pressed));
    assert!(b.is_pressed());
    assert!(ctx.paint_requested);
    let r2 = b.event(&mut ctx, Event::Touch(TouchEvent::TouchEnd(inside)));
    assert_eq!(r2, Some(ButtonMsg::Clicked));
    assert!(!b.is_pressed());
}

#[test]
fn touch_leaving_the_area_releases() {
    let mut b = placed_button();
    let mut ctx = EventCtx::new();
    b.event(&mut ctx, Event::Touch(TouchEvent::TouchStart(Point::new(10, 10))));
    let r = b.event(&mut ctx, Event::Touch(TouchEvent::TouchMove(Point::new(200, 10))));
    assert_eq!(r, Some(ButtonMsg::Released));
    assert!(!b.is_pressed());
}

#[test]
fn disabled_button_ignores_touches() {
    let mut b = placed_button();
    let mut ctx = EventCtx::new();
    b.disable(&mut ctx);
    assert!(b.is_disabled());
    let r = b.event(&mut ctx, Event::Touch(TouchEvent::TouchStart(Point::new(10, 10))));
    assert_eq!(r, None);
    assert!(b.is_disabled());
    b.enable(&mut ctx);
    assert!(b.is_enabled());
}

#[test]
fn long_press_timer_fires() {
    let mut b = placed_button().with_long_press(Duration::from_millis(1500));
    let mut ctx = EventCtx::new();
    let r1 = b.event(&mut ctx, Event::Touch(TouchEvent::TouchStart(Point::new(5, 5))));
    assert_eq!(r1, Some(ButtonMsg::Pressed));
    assert_eq!(ctx.timer_requests.len(), 1);
    let (token, duration) = ctx.timer_requests[0];
    assert_eq!(duration, Duration::from_millis(1500));
    let r2 = b.event(&mut ctx, Event::Timer(token));
    assert_eq!(r2, Some(ButtonMsg::LongPressed));
    assert!(!b.is_pressed());
}

#[test]
fn touch_outside_expanded_area_counts() {
    let mut b = placed_button().with_expanded_touch_area(Insets::uniform(10));
    let mut ctx = EventCtx::new();
    // just outside the placed area, inside the expanded one
    let r = b.event(&mut ctx, Event::Touch(TouchEvent::TouchStart(Point::new(105, 55))));
    assert_eq!(r, Some(ButtonMsg::Pressed));
}

#[test]
fn menu_item_builder_sets_looks() {
    let b = Button::new_menu_item("entry", theme::button_default());
    assert_eq!(b.text_align, Alignment::Start);
    assert_eq!(b.radius, Some(12));
    assert_eq!(b.content_offset.x, 12);
}

#[test]
fn styles_follow_the_state() {
    let mut b = placed_button();
    let normal = *b.style();
    let mut ctx = EventCtx::new();
    b.event(&mut ctx, Event::Touch(TouchEvent::TouchStart(Point::new(1, 1))));
    let active = *b.style();
    assert_eq!(normal, b.stylesheet().normal);
    assert_eq!(active, b.stylesheet().active);
}

#[test]
fn timer_tokens_match_exactly_once() {
    let mut ctx = EventCtx::new();
    let mut timer = Timer::new();
    timer.start(&mut ctx, Duration::from_millis(100));
    let token = ctx.timer_requests[0].0;
    assert!(!timer.expire(Event::Timer(token + 1)));
    assert!(timer.expire(Event::Timer(token)));
    assert!(!timer.expire(Event::Timer(token)));
}

#[test]
fn geometry_contains_and_outset() {
    let r = Rect::new(Point::new(10, 10), Point::new(20, 20));
    assert!(r.contains(Point::new(10, 10)));
    assert!(!r.contains(Point::new(20, 20)));
    let grown = r.outset(Insets::uniform(5));
    assert_eq!(grown, Rect::new(Point::new(5, 5), Point::new(25, 25)));
    assert_eq!(r.center(), Point::new(15, 15));
    assert_eq!(r.width(), 10);
    assert_eq!(r.height(), 10);
}

#[test]
fn screen_constants_agree() {
    let size = constant::size();
    let screen = constant::screen();
    assert_eq!(screen.x1, size.x);
    assert_eq!(screen.y1, size.y);
    assert_eq!(screen.x0, 0);
    assert_eq!(screen.y0, 0);
}

#[test]
fn welcome_screen_holds_its_area() {
    let mut w = WelcomeScreen::new();
    assert_eq!(w.area, Rect::zero());
    let bounds = constant::screen();
    assert_eq!(w.place(bounds), bounds);
    assert_eq!(w.area, bounds);
}

#[test]
fn address_flow_decision_table() {
    assert_eq!(GetAddress::Address.index(), 0);
    assert_eq!(GetAddress::Cancel.index(), 4);
    assert_eq!(
        GetAddress::Address.handle_event(FlowMsg::Info),
        Decision::Goto(GetAddress::Menu)
    );
    assert_eq!(
        GetAddress::Address.handle_event(FlowMsg::Confirmed),
        Decision::Return(FlowMsg::Confirmed)
    );
    assert_eq!(
        GetAddress::Menu.handle_event(FlowMsg::Choice(1)),
        Decision::SwipeLeft(GetAddress::AccountInfo)
    );
    assert_eq!(GetAddress::Menu.handle_event(FlowMsg::Choice(9)), Decision::Nothing);
    assert_eq!(
        GetAddress::Cancel.handle_event(FlowMsg::Confirmed),
        Decision::Return(FlowMsg::Cancelled)
    );
    assert_eq!(
        GetAddress::QrCode.handle_swipe(protowire::ui::geometry::Direction::Up),
        Decision::Nothing
    );
}
