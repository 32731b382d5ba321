//! Flow control for the receive-address screens: which screen follows which
//! event. The decision tables are plain functions from state and message to
//! the next move; running the screens is the host's business.

use vstd::prelude::*;
use crate::ui::geometry::Direction;

verus! {

/// What a screen reported to the flow.
#[derive(Clone, Copy, PartialEq, Eq, Debug, Structural)]
pub enum FlowMsg {
    Confirmed,
    Cancelled,
    Info,
    Choice(usize),
}

/// What the flow does next.
#[derive(Clone, Copy, PartialEq, Eq, Debug, Structural)]
pub enum Decision {
    /// Stay on the current screen.
    Nothing,
    /// Jump to another screen.
    Goto(GetAddress),
    /// Slide to another screen, leftwards.
    SwipeLeft(GetAddress),
    /// Slide to another screen, rightwards.
    SwipeRight(GetAddress),
    /// Leave the flow, reporting the message to the caller.
    Return(FlowMsg),
}

/// The screens of the receive-address flow.
#[derive(Clone, Copy, PartialEq, Eq, Debug, Structural)]
pub enum GetAddress {
    Address,
    Menu,
    QrCode,
    AccountInfo,
    Cancel,
}

impl GetAddress {
    /// Position of the screen in the flow's page order.
    pub fn index(&self) -> (r: usize)
        ensures
            r == (match *self {
                GetAddress::Address => 0int,
                GetAddress::Menu => 1int,
                GetAddress::QrCode => 2int,
                GetAddress::AccountInfo => 3int,
                GetAddress::Cancel => 4int,
            }),
    {
        match self {
            GetAddress::Address => 0,
            GetAddress::Menu => 1,
            GetAddress::QrCode => 2,
            GetAddress::AccountInfo => 3,
            GetAddress::Cancel => 4,
        }
    }

    /// Swipes do not move between these screens.
    pub fn handle_swipe(&self, direction: Direction) -> (r: Decision)
        ensures
            r == Decision::Nothing,
    {
        let _ = direction;
        Decision::Nothing
    }

    /// The move a screen's message causes.
    pub open spec fn spec_handle_event(self, msg: FlowMsg) -> Decision {
        match (self, msg) {
            (GetAddress::Address, FlowMsg::Info) => Decision::Goto(GetAddress::Menu),
            (GetAddress::Address, FlowMsg::Confirmed) => Decision::Return(FlowMsg::Confirmed),
            (GetAddress::Menu, FlowMsg::Choice(0)) => Decision::SwipeLeft(GetAddress::QrCode),
            (GetAddress::Menu, FlowMsg::Choice(1)) => Decision::SwipeLeft(GetAddress::AccountInfo),
            (GetAddress::Menu, FlowMsg::Choice(2)) => Decision::SwipeLeft(GetAddress::Cancel),
            (GetAddress::Menu, FlowMsg::Cancelled) => Decision::SwipeRight(GetAddress::Address),
            (GetAddress::QrCode, FlowMsg::Cancelled) => Decision::Goto(GetAddress::Menu),
            (GetAddress::AccountInfo, FlowMsg::Cancelled) => Decision::Goto(GetAddress::Menu),
            (GetAddress::Cancel, FlowMsg::Cancelled) => Decision::Goto(GetAddress::Address),
            (GetAddress::Cancel, FlowMsg::Confirmed) => Decision::Return(FlowMsg::Cancelled),
            _ => Decision::Nothing,
        }
    }

    /// The move a screen's message causes.
    pub fn handle_event(&self, msg: FlowMsg) -> (r: Decision)
        ensures
            r == self.spec_handle_event(msg),
    {
        match (self, msg) {
            (GetAddress::Address, FlowMsg::Info) => Decision::Goto(GetAddress::Menu),
            (GetAddress::Address, FlowMsg::Confirmed) => Decision::Return(FlowMsg::Confirmed),
            (GetAddress::Menu, FlowMsg::Choice(i)) => {
                if i == 0 {
                    Decision::SwipeLeft(GetAddress::QrCode)
                } else if i == 1 {
                    Decision::SwipeLeft(GetAddress::AccountInfo)
                } else if i == 2 {
                    Decision::SwipeLeft(GetAddress::Cancel)
                } else {
                    Decision::Nothing
                }
            },
            (GetAddress::Menu, FlowMsg::Cancelled) => Decision::SwipeRight(GetAddress::Address),
            (GetAddress::QrCode, FlowMsg::Cancelled) => Decision::Goto(GetAddress::Menu),
            (GetAddress::AccountInfo, FlowMsg::Cancelled) => Decision::Goto(GetAddress::Menu),
            (GetAddress::Cancel, FlowMsg::Cancelled) => Decision::Goto(GetAddress::Address),
            (GetAddress::Cancel, FlowMsg::Confirmed) => Decision::Return(FlowMsg::Cancelled),
            _ => Decision::Nothing,
        }
    }
}

} // verus!
