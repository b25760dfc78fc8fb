//! The interactive search: the input line, the list of results and what each key does.

pub mod input;
pub mod color;
pub mod span;
pub mod highlight;
pub mod app;
pub mod screen;
