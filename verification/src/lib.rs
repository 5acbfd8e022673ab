//! Interactive GPS coordinate controller.
//!
//! A position is a latitude/longitude pair held in exact fixed-point angular
//! units, a step size is a distance per key press, and a small state machine
//! turns classified key events into position updates.  Argument text is
//! parsed into coordinates here; reading keys, painting the screen and
//! pushing the position to a device are left to the surrounding program.

pub mod convert;
pub mod parse;
pub mod state;
