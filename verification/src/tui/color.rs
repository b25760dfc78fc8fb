//! The colors that a configuration can name.

use crate::text::{lower, same, to_chars, to_lower};
use vstd::prelude::*;

verus! {

/// A terminal color.
#[derive(Debug, Clone, Copy, PartialEq, Eq, Structural)]
pub enum Color {
    Black,
    Red,
    Green,
    Yellow,
    Blue,
    Magenta,
    Cyan,
    White,
    Gray,
    DarkGray,
    LightRed,
    LightGreen,
    LightYellow,
    LightBlue,
    LightMagenta,
    LightCyan,
}

/// The color that a name in lower case stands for.
pub open spec fn named_color(name: Seq<char>) -> Option<Color> {
    if name == "black"@ {
        Some(Color::Black)
    } else if name == "red"@ {
        Some(Color::Red)
    } else if name == "green"@ {
        Some(Color::Green)
    } else if name == "yellow"@ {
        Some(Color::Yellow)
    } else if name == "blue"@ {
        Some(Color::Blue)
    } else if name == "magenta"@ {
        Some(Color::Magenta)
    } else if name == "cyan"@ {
        Some(Color::Cyan)
    } else if name == "white"@ {
        Some(Color::White)
    } else if name == "gray"@ {
        Some(Color::Gray)
    } else if name == "darkgray"@ {
        Some(Color::DarkGray)
    } else if name == "lightred"@ {
        Some(Color::LightRed)
    } else if name == "lightgreen"@ {
        Some(Color::LightGreen)
    } else if name == "lightyellow"@ {
        Some(Color::LightYellow)
    } else if name == "lightblue"@ {
        Some(Color::LightBlue)
    } else if name == "lightmagenta"@ {
        Some(Color::LightMagenta)
    } else if name == "lightcyan"@ {
        Some(Color::LightCyan)
    } else {
        None
    }
}

/// Tells whether characters spell a word.
fn spells(chars: &Vec<char>, word: &str) -> (r: bool)
    ensures
        r == (chars@ == word@),
{
    same(chars, &to_chars(word))
}

/// The color of a name, in any case.
pub fn parse_color(s: &str) -> (r: Option<Color>)
    ensures
        r == named_color(lower(s@)),
{
    let name = to_lower(&to_chars(s));
    if spells(&name, "black") {
        Some(Color::Black)
    } else if spells(&name, "red") {
        Some(Color::Red)
    } else if spells(&name, "green") {
        Some(Color::Green)
    } else if spells(&name, "yellow") {
        Some(Color::Yellow)
    } else if spells(&name, "blue") {
        Some(Color::Blue)
    } else if spells(&name, "magenta") {
        Some(Color::Magenta)
    } else if spells(&name, "cyan") {
        Some(Color::Cyan)
    } else if spells(&name, "white") {
        Some(Color::White)
    } else if spells(&name, "gray") {
        Some(Color::Gray)
    } else if spells(&name, "darkgray") {
        Some(Color::DarkGray)
    } else if spells(&name, "lightred") {
        Some(Color::LightRed)
    } else if spells(&name, "lightgreen") {
        Some(Color::LightGreen)
    } else if spells(&name, "lightyellow") {
        Some(Color::LightYellow)
    } else if spells(&name, "lightblue") {
        Some(Color::LightBlue)
    } else if spells(&name, "lightmagenta") {
        Some(Color::LightMagenta)
    } else if spells(&name, "lightcyan") {
        Some(Color::LightCyan)
    } else {
        None
    }
}

} // verus!
