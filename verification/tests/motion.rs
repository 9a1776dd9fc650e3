use nacelle::motion::{effect_for, State};
use nacelle::object::button::ButtonState;

#[test]
fn the_rung_that_moved_names_the_effect() {
    assert_eq!(effect_for(State::Idle, State::Hover), "hover");
    assert_eq!(effect_for(State::Hover, State::Idle), "hover");
    assert_eq!(effect_for(State::Selected, State::SelectedHover), "hover");
    assert_eq!(effect_for(State::Hover, State::Press), "press");
    assert_eq!(effect_for(State::Dragging, State::Idle), "press");
    assert_eq!(effect_for(State::Press, State::Dragging), "hover", "both are pressed");
    assert_eq!(effect_for(State::Idle, State::Selected), "select");
    assert_eq!(effect_for(State::SelectedHover, State::Hover), "select");
    // Disabled is the outermost rule: it wins whatever else moved.
    assert_eq!(effect_for(State::Press, State::Disabled), "disable");
    assert_eq!(effect_for(State::Disabled, State::SelectedHover), "disable");
}

#[test]
fn a_flash_is_press_and_selection_persists_under_the_pointer() {
    let b = |hover, flash, selected| ButtonState { hover, flash, selected }.state();
    assert_eq!(b(false, false, false), State::Idle);
    assert_eq!(b(true, false, false), State::Hover);
    assert_eq!(b(false, false, true), State::Selected);
    assert_eq!(b(true, false, true), State::SelectedHover);
    assert_eq!(b(true, true, true), State::Press);
    assert_eq!(b(false, true, false), State::Press);
}
