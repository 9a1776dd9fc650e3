//! Controls: what state a button stands in, the colour picker's
//! notations and parts, and the identities tooltips are filed under.

pub mod button;
pub mod color_picker;
pub mod toaster;
pub mod tooltip;
