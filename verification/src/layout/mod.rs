//! The layout engine's home: the `.layaut` format, the layout
//! definition, the list of placed instances and the named layouts of a
//! store.

pub mod columns;
pub mod def;
pub mod file;
pub mod instance;
pub mod rects;
pub mod layaut;
pub mod save;
pub mod store;
