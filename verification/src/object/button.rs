//! A button's place on the state ladder.

use vstd::prelude::*;
use crate::motion::State;

verus! {

/// What a button shows this frame: whether the pointer rests on it,
/// whether a click flash is decaying, and whether it is the chosen one.
#[derive(Clone, Copy, Default, Debug, PartialEq, Eq, Structural)]
pub struct ButtonState {
    pub hover: bool,
    pub flash: bool,
    pub selected: bool,
}

impl ButtonState {
    /// Which ladder slot this button occupies. A decaying click flash IS
    /// press; selection persists under the pointer as selected-hover.
    pub open spec fn rung(self) -> State {
        if self.flash {
            State::Press
        } else if self.hover && self.selected {
            State::SelectedHover
        } else if self.hover {
            State::Hover
        } else if self.selected {
            State::Selected
        } else {
            State::Idle
        }
    }

    pub fn state(self) -> (s: State)
        ensures
            s == self.rung(),
    {
        if self.flash {
            State::Press
        } else if self.hover && self.selected {
            State::SelectedHover
        } else if self.hover {
            State::Hover
        } else if self.selected {
            State::Selected
        } else {
            State::Idle
        }
    }
}

} // verus!
