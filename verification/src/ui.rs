//! Modeled user-interface components around the codec: widget state logic,
//! kept apart from any rendering backend.

pub mod button;
pub mod component;
pub mod constant;
pub mod display;
pub mod flow;
pub mod geometry;
pub mod theme;
pub mod welcome_screen;
