//! The nacelle toolkit's decisions, each with its contract: where data
//! lives, the retained channel board and the clipboard seam, the widget
//! registry, the `.layaut` format and the instances a layout places, the
//! glyph atlas, the state ladder of a control, the notations of a colour,
//! the grouping of a number, whether a copy of the toolkit owns the
//! process-wide state or forwards it to a host, and what a plugin asking
//! to see the terminal is answered.

pub mod text;
pub mod seqs;
pub mod assets;
pub mod atlas;
pub mod base;
pub mod channel;
pub mod clipboard;
pub mod draw;
pub mod font;
pub mod layout;
pub mod motion;
pub mod num;
pub mod object;
pub mod runtime;
pub mod term_view;
