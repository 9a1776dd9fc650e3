//! The state ladder a control stands on, and which motion effect a move
//! between two of its rungs runs under.

use vstd::prelude::*;

verus! {

/// A rung of a control's state ladder.
#[derive(Clone, Copy, PartialEq, Eq, Debug, Structural)]
pub enum State {
    Idle,
    Hover,
    Press,
    Dragging,
    Selected,
    SelectedHover,
    Disabled,
}

/// Whether a rung is pressed: press, and its sustained form, dragging.
pub open spec fn pressed(s: State) -> bool {
    s == State::Press || s == State::Dragging
}

/// Whether a rung is chosen: selected, with or without the pointer on it.
pub open spec fn chosen(s: State) -> bool {
    s == State::Selected || s == State::SelectedHover
}

/// The effect a move from `from` to `to` runs under: the rung that
/// CHANGED names it, and when two changed at once the outermost wins —
/// disabled, then press, then selection, and hover last.
pub open spec fn effect_of(from: State, to: State) -> Seq<char> {
    if from == State::Disabled || to == State::Disabled {
        "disable"@
    } else if pressed(from) != pressed(to) {
        "press"@
    } else if chosen(from) != chosen(to) {
        "select"@
    } else {
        "hover"@
    }
}

fn is_pressed(s: State) -> (b: bool)
    ensures
        b == pressed(s),
{
    match s {
        State::Press | State::Dragging => true,
        _ => false,
    }
}

fn is_chosen(s: State) -> (b: bool)
    ensures
        b == chosen(s),
{
    match s {
        State::Selected | State::SelectedHover => true,
        _ => false,
    }
}

/// Which `motion.<id>` entry a move between two rungs runs under.
pub fn effect_for(from: State, to: State) -> (r: &'static str)
    ensures
        r@ == effect_of(from, to),
{
    if from == State::Disabled || to == State::Disabled {
        "disable"
    } else if is_pressed(from) != is_pressed(to) {
        "press"
    } else if is_chosen(from) != is_chosen(to) {
        "select"
    } else {
        "hover"
    }
}

} // verus!
