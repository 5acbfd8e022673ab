//! Position state and the key-driven transition function.
//!
//! A [`Controller`] holds the current position, the configured step and the
//! label of the last transition.  [`Controller::apply_key`] is the whole
//! decision core of the interactive loop: it turns one classified key event
//! into a state change and an [`Outcome`] telling the surrounding loop what
//! to do (push and repaint, do nothing, or terminate).  The surrounding loop
//! performs no decision of its own.

use vstd::prelude::*;

use crate::convert::angular_step_units;
use crate::convert::to_angular_step;
use crate::convert::MAX_STEP_MILLIMETERS;

verus! {

/// A latitude/longitude pair, both in fixed-point angular units.
#[derive(Clone, Copy, PartialEq, Eq, Structural, Debug)]
pub struct Position {
    pub lat_units: i64,
    pub lng_units: i64,
}

/// A classified input event, as the surrounding loop reports it.
#[derive(Clone, Copy, PartialEq, Eq, Structural, Debug)]
pub enum Key {
    /// Move north.
    Up,
    /// Move south.
    Down,
    /// Move west.
    Left,
    /// Move east.
    Right,
    /// The quit key.
    Quit,
    /// An interrupt (such as a control-C key combination).
    Interrupt,
    /// Any other key: ignored.
    Other,
}

/// The label of the most recent transition, shown in the status display.
#[derive(Clone, Copy, PartialEq, Eq, Structural, Debug)]
pub enum Action {
    Ready,
    North,
    South,
    East,
    West,
}

/// What the surrounding loop must do after a key was applied.
#[derive(Clone, Copy, PartialEq, Eq, Structural, Debug)]
pub enum Outcome {
    /// The position changed: push it to the location sink, then repaint.
    Moved,
    /// Nothing changed: read the next event without repainting.
    Ignored,
    /// Leave the loop.
    Terminate,
}

impl Action {
    /// The display text of this label.
    pub open spec fn label_spec(self) -> Seq<char> {
        match self {
            Action::Ready => "Ready"@,
            Action::North => "^ North"@,
            Action::South => "v South"@,
            Action::East => "> East"@,
            Action::West => "< West"@,
        }
    }

    /// Returns the display text of this label.
    pub fn label(&self) -> (r: String)
        ensures
            r@ == self.label_spec(),
    {
        match self {
            Action::Ready => String::from_str("Ready"),
            Action::North => String::from_str("^ North"),
            Action::South => String::from_str("v South"),
            Action::East => String::from_str("> East"),
            Action::West => String::from_str("< West"),
        }
    }
}

/// `a + b` clipped to the range of `i64`.
pub open spec fn sat_add_i64(a: int, b: int) -> int {
    if a + b > i64::MAX {
        i64::MAX as int
    } else if a + b < i64::MIN {
        i64::MIN as int
    } else {
        a + b
    }
}

/// `a - b` clipped to the range of `i64`.
pub open spec fn sat_sub_i64(a: int, b: int) -> int {
    if a - b > i64::MAX {
        i64::MAX as int
    } else if a - b < i64::MIN {
        i64::MIN as int
    } else {
        a - b
    }
}

/// Adds with saturation at the ends of the `i64` range.
fn sat_add(a: i64, b: i64) -> (r: i64)
    ensures
        r as int == sat_add_i64(a as int, b as int),
{
    match a.checked_add(b) {
        Some(v) => v,
        None => if b > 0 {
            i64::MAX
        } else {
            i64::MIN
        },
    }
}

/// Subtracts with saturation at the ends of the `i64` range.
fn sat_sub(a: i64, b: i64) -> (r: i64)
    ensures
        r as int == sat_sub_i64(a as int, b as int),
{
    match a.checked_sub(b) {
        Some(v) => v,
        None => if b < 0 {
            i64::MAX
        } else {
            i64::MIN
        },
    }
}

/// The interactive state: current position, immutable step configuration and
/// the label of the last transition.
#[derive(Clone, Copy, PartialEq, Eq, Structural, Debug)]
pub struct Controller {
    /// The most recently committed coordinate pair.
    pub position: Position,
    /// The angular step per key press, in fixed-point units.
    pub step_units: i64,
    /// The linear step per key press, in millimeters (kept for display).
    pub step_millimeters: u64,
    /// The label of the most recent transition.
    pub last_action: Action,
}

/// The state and outcome that one classified key event produces.
pub open spec fn spec_apply(c: Controller, key: Key) -> (Controller, Outcome) {
    match key {
        Key::Up => (
            Controller {
                position: Position {
                    lat_units: sat_add_i64(c.position.lat_units as int, c.step_units as int) as i64,
                    lng_units: c.position.lng_units,
                },
                last_action: Action::North,
                ..c
            },
            Outcome::Moved,
        ),
        Key::Down => (
            Controller {
                position: Position {
                    lat_units: sat_sub_i64(c.position.lat_units as int, c.step_units as int) as i64,
                    lng_units: c.position.lng_units,
                },
                last_action: Action::South,
                ..c
            },
            Outcome::Moved,
        ),
        Key::Right => (
            Controller {
                position: Position {
                    lat_units: c.position.lat_units,
                    lng_units: sat_add_i64(c.position.lng_units as int, c.step_units as int) as i64,
                },
                last_action: Action::East,
                ..c
            },
            Outcome::Moved,
        ),
        Key::Left => (
            Controller {
                position: Position {
                    lat_units: c.position.lat_units,
                    lng_units: sat_sub_i64(c.position.lng_units as int, c.step_units as int) as i64,
                },
                last_action: Action::West,
                ..c
            },
            Outcome::Moved,
        ),
        Key::Quit => (c, Outcome::Terminate),
        Key::Interrupt => (c, Outcome::Terminate),
        Key::Other => (c, Outcome::Ignored),
    }
}

impl Controller {
    /// The step fields agree: the angular step is the flat-earth conversion
    /// of the configured linear step.
    pub open spec fn wf(self) -> bool {
        &&& self.step_millimeters <= MAX_STEP_MILLIMETERS
        &&& self.step_units == angular_step_units(self.step_millimeters as int)
    }

    /// Builds the initial state: the given position, the given step, and a
    /// last-action label of `Ready`.
    pub fn new(position: Position, step_millimeters: u64) -> (r: Controller)
        requires
            step_millimeters <= MAX_STEP_MILLIMETERS,
        ensures
            r.wf(),
            r.position == position,
            r.step_millimeters == step_millimeters,
            r.last_action == Action::Ready,
    {
        Controller {
            position,
            step_units: to_angular_step(step_millimeters),
            step_millimeters,
            last_action: Action::Ready,
        }
    }

    /// Applies one classified key event.
    ///
    /// Directional keys move the position one angular step in the compass
    /// direction (saturating at the ends of the representable range) and
    /// relabel the last action; the quit key and an interrupt terminate the
    /// loop without touching the state; every other key changes nothing and
    /// asks for neither a sink call nor a repaint.
    pub fn apply_key(&mut self, key: Key) -> (r: Outcome)
        ensures
            (*final(self), r) == spec_apply(*old(self), key),
            final(self).wf() == old(self).wf(),
            key is Other ==> *final(self) == *old(self) && r == Outcome::Ignored,
            (key is Quit || key is Interrupt) ==> *final(self) == *old(self) && r
                == Outcome::Terminate,
    {
        match key {
            Key::Up => {
                self.position.lat_units = sat_add(self.position.lat_units, self.step_units);
                self.last_action = Action::North;
                Outcome::Moved
            },
            Key::Down => {
                self.position.lat_units = sat_sub(self.position.lat_units, self.step_units);
                self.last_action = Action::South;
                Outcome::Moved
            },
            Key::Right => {
                self.position.lng_units = sat_add(self.position.lng_units, self.step_units);
                self.last_action = Action::East;
                Outcome::Moved
            },
            Key::Left => {
                self.position.lng_units = sat_sub(self.position.lng_units, self.step_units);
                self.last_action = Action::West;
                Outcome::Moved
            },
            Key::Quit => Outcome::Terminate,
            Key::Interrupt => Outcome::Terminate,
            Key::Other => Outcome::Ignored,
        }
    }
}

/// Pressing Right and then Left is an inverse pair: as long as the
/// intermediate longitude stays in the representable range, the longitude
/// returns exactly to its original value and the latitude is never touched.
pub proof fn lemma_right_then_left_restores_longitude(c: Controller)
    requires
        i64::MIN <= c.position.lng_units + c.step_units <= i64::MAX,
    ensures
        ({
            let moved = spec_apply(c, Key::Right).0;
            let back = spec_apply(moved, Key::Left).0;
            back.position.lng_units == c.position.lng_units && back.position.lat_units
                == c.position.lat_units
        }),
{
}

/// Pressing Up and then Down is an inverse pair in the same way: the
/// latitude returns exactly to its original value and the longitude is
/// never touched.
pub proof fn lemma_up_then_down_restores_latitude(c: Controller)
    requires
        i64::MIN <= c.position.lat_units + c.step_units <= i64::MAX,
    ensures
        ({
            let moved = spec_apply(c, Key::Up).0;
            let back = spec_apply(moved, Key::Down).0;
            back.position.lat_units == c.position.lat_units && back.position.lng_units
                == c.position.lng_units
        }),
{
}

} // verus!
