//! The lines in which a host displays a stack.

use vstd::prelude::*;

verus! {

/// The colour of a display line.
#[derive(Clone, Copy, Debug, PartialEq, Eq, Structural)]
pub enum ScreenColor {
    White,
    Green,
    Yellow,
    Cyan,
    Blue,
    Red,
    Count,
}

/// One line of the display of a stack: an element of a frame's form with its
/// indentation, its colour, its weight, and its place in the order of lines.
#[derive(Clone, Debug, PartialEq)]
pub struct ScreenLine {
    pub text: String,
    pub color: ScreenColor,
    pub importance: i32,
    pub order: i32,
    pub indent: String,
}

impl Default for ScreenColor {
    fn default() -> (r: ScreenColor)
        ensures
            r == ScreenColor::White,
    {
        ScreenColor::White
    }
}

impl Default for ScreenLine {
    fn default() -> (r: ScreenLine)
        ensures
            r.text@.len() == 0,
            r.color == ScreenColor::White,
            r.importance == 0,
            r.order == 0,
            r.indent@.len() == 0,
    {
        ScreenLine {
            text: String::new(),
            color: ScreenColor::White,
            importance: 0,
            order: 0,
            indent: String::new(),
        }
    }
}

} // verus!
