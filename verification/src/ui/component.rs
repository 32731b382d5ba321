//! Event plumbing shared by components: input events, timers and the
//! context a component uses to request work from its host.

use vstd::prelude::*;
use crate::ui::geometry::{Direction, Point};

verus! {

/// A span of time in milliseconds.
#[derive(Clone, Copy, PartialEq, Eq, Debug, Structural)]
pub struct Duration {
    pub millis: u32,
}

impl Duration {
    pub fn from_millis(millis: u32) -> (r: Self)
        ensures
            r == (Duration { millis }),
    {
        Duration { millis }
    }
}

/// One touch-panel event.
#[derive(Clone, Copy, PartialEq, Eq, Debug, Structural)]
pub enum TouchEvent {
    TouchStart(Point),
    TouchMove(Point),
    TouchEnd(Point),
}

/// One event dispatched to a component.
#[derive(Clone, Copy, PartialEq, Eq, Debug, Structural)]
pub enum Event {
    Touch(TouchEvent),
    Swipe(Direction),
    Timer(u32),
}

/// What a component asked its host for while handling an event.
pub struct EventCtx {
    /// Whether a repaint was requested.
    pub paint_requested: bool,
    /// Timer requests raised during the call: token and duration.
    pub timer_requests: Vec<(u32, Duration)>,
    /// Source of fresh timer tokens.
    pub next_token: u32,
}

impl EventCtx {
    pub fn new() -> (r: Self)
        ensures
            r.paint_requested == false,
            r.timer_requests@ =~= Seq::<(u32, Duration)>::empty(),
            r.next_token == 1u32,
    {
        EventCtx { paint_requested: false, timer_requests: Vec::new(), next_token: 1 }
    }

    /// Asks the host to repaint.
    pub fn request_paint(&mut self) -> (r: ())
        ensures
            final(self).paint_requested == true,
            final(self).timer_requests == old(self).timer_requests,
            final(self).next_token == old(self).next_token,
    {
        self.paint_requested = true;
    }

    /// Registers a timer request and hands back its token.
    pub fn request_timer(&mut self, duration: Duration) -> (token: u32)
        requires
            old(self).next_token < u32::MAX,
        ensures
            token == old(self).next_token,
            final(self).next_token == old(self).next_token + 1,
            final(self).timer_requests@ == old(self).timer_requests@.push((token, duration)),
            final(self).paint_requested == old(self).paint_requested,
    {
        let token = self.next_token;
        self.next_token = self.next_token + 1;
        self.timer_requests.push((token, duration));
        token
    }
}

/// A component's handle on one outstanding timer.
#[derive(Clone, Copy, PartialEq, Eq, Debug, Structural)]
pub struct Timer {
    pub token: Option<u32>,
}

impl Timer {
    pub fn new() -> (r: Self)
        ensures
            r.token is None,
    {
        Timer { token: None }
    }

    /// Schedules the timer, replacing any outstanding request.
    pub fn start(&mut self, ctx: &mut EventCtx, duration: Duration) -> (r: ())
        requires
            old(ctx).next_token < u32::MAX,
        ensures
            final(self).token == Some(old(ctx).next_token),
            final(ctx).next_token == old(ctx).next_token + 1,
            final(ctx).timer_requests@ == old(ctx).timer_requests@.push(
                (old(ctx).next_token, duration),
            ),
            final(ctx).paint_requested == old(ctx).paint_requested,
    {
        let token = ctx.request_timer(duration);
        self.token = Some(token);
    }

    /// Forgets the outstanding request; its event will no longer match.
    pub fn stop(&mut self) -> (r: ())
        ensures
            final(self).token is None,
    {
        self.token = None;
    }

    /// Whether the event is this timer's expiry; a match consumes the token.
    pub fn expire(&mut self, event: Event) -> (r: bool)
        ensures
            r == (old(self).token is Some && event == Event::Timer(old(self).token->Some_0)),
            r ==> final(self).token is None,
            !r ==> *final(self) == *old(self),
    {
        match event {
            Event::Timer(t) => {
                match self.token {
                    Some(tok) => {
                        if tok == t {
                            self.token = None;
                            true
                        } else {
                            false
                        }
                    },
                    None => false,
                }
            },
            _ => false,
        }
    }
}

} // verus!
