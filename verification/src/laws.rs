//! What holds of the library as a whole: laws that span its functions.

pub mod texts;
pub mod offsets;
pub mod places;
pub mod parsing;
pub mod matching;
pub mod answers;
pub mod results;
pub mod scoring;
pub mod prefilter;
pub mod statement;
pub mod display;
pub mod showing;
pub mod highlighting;
pub mod finding;
pub mod editing;
pub mod keys;
pub mod watching;
pub mod reports;
pub mod ignoring;
pub mod defaults;
pub mod setup;
