//! Small input-state helpers for the interactive shell around the
//! simulation: edge-detecting key state, and the plain selector enums the
//! camera and mouse handling use.

use vstd::prelude::*;

verus! {

/// How the renderer fills polygons.
#[derive(Clone, Copy, Debug, PartialEq, Eq, Structural)]
pub enum PolygonMode {
    Point,
    Line,
    Face,
}

/// A mouse button.
#[derive(Clone, Copy, Debug, PartialEq, Eq, Structural)]
pub enum ClickButton {
    Left,
    Right,
}

/// One key's (or button's) state with edge detection: `just_changed` holds
/// on the tick a press first lands.
#[derive(Clone, Copy, Debug, PartialEq, Eq, Structural)]
pub struct KeyState {
    pub pressed: bool,
    pub just_changed: bool,
}

impl KeyState {
    /// A key first seen in the given state counts as just changed.
    pub fn new(state: bool) -> (k: KeyState)
        ensures
            k.pressed == state,
            k.just_changed,
    {
        KeyState { pressed: state, just_changed: true }
    }

    /// Record a new observation: the key reads as just-changed when the
    /// observation flips a settled state.
    pub fn update(&mut self, pressed_now: bool)
        ensures
            final(self).pressed == pressed_now,
            final(self).just_changed == (!old(self).just_changed && pressed_now != old(
                self,
            ).pressed),
    {
        self.just_changed = !self.just_changed && pressed_now != self.pressed;
        self.pressed = pressed_now;
    }
}

} // verus!
