//! Keeping the index in step with the file system: what was reported, what is to be done about
//! it, and when.

pub mod pending;
pub mod ignore;
pub mod sync;
