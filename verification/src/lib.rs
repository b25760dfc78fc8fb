//! Quickfind: the verified core of a file finder.

pub mod text;
pub mod paths;
pub mod patterns;
pub mod query;
pub mod db;
pub mod ranking;
pub mod bytes;
pub mod numbers;
pub mod tui;
pub mod config;
pub mod onboarding;
pub mod watcher;
pub mod indexing;
pub mod laws;
