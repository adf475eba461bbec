//! The fixed palette of colors available for counter graphs.

use vstd::prelude::*;
use crate::text::str_eq;
use crate::text::to_owned_string;

verus! {

/// One of the available colors for a graph.
#[derive(Debug, Clone, Copy, PartialEq, Eq, Structural)]
pub enum GraphColor {
    Blue,
    Green,
    Grey,
    Ink,
    Magenta,
    Orange,
    Purple,
    Red,
    Teal,
    Yellow,
}

impl GraphColor {
    /// The palette name of this color, as it appears in counter logs and in
    /// the serialized profile.
    pub open spec fn spec_name(self) -> Seq<char> {
        match self {
            GraphColor::Blue => "blue"@,
            GraphColor::Green => "green"@,
            GraphColor::Grey => "grey"@,
            GraphColor::Ink => "ink"@,
            GraphColor::Magenta => "magenta"@,
            GraphColor::Orange => "orange"@,
            GraphColor::Purple => "purple"@,
            GraphColor::Red => "red"@,
            GraphColor::Teal => "teal"@,
            GraphColor::Yellow => "yellow"@,
        }
    }

    /// Renders the palette name of this color.
    pub fn name(&self) -> (r: String)
        ensures
            r@ == self.spec_name(),
    {
        match self {
            GraphColor::Blue => to_owned_string("blue"),
            GraphColor::Green => to_owned_string("green"),
            GraphColor::Grey => to_owned_string("grey"),
            GraphColor::Ink => to_owned_string("ink"),
            GraphColor::Magenta => to_owned_string("magenta"),
            GraphColor::Orange => to_owned_string("orange"),
            GraphColor::Purple => to_owned_string("purple"),
            GraphColor::Red => to_owned_string("red"),
            GraphColor::Teal => to_owned_string("teal"),
            GraphColor::Yellow => to_owned_string("yellow"),
        }
    }
}

/// The color selected by a palette name; any string outside the palette
/// (`unspec` among them) selects no color.
pub open spec fn graph_color_of(s: Seq<char>) -> Option<GraphColor> {
    if s == "blue"@ {
        Some(GraphColor::Blue)
    } else if s == "green"@ {
        Some(GraphColor::Green)
    } else if s == "grey"@ {
        Some(GraphColor::Grey)
    } else if s == "ink"@ {
        Some(GraphColor::Ink)
    } else if s == "magenta"@ {
        Some(GraphColor::Magenta)
    } else if s == "orange"@ {
        Some(GraphColor::Orange)
    } else if s == "purple"@ {
        Some(GraphColor::Purple)
    } else if s == "red"@ {
        Some(GraphColor::Red)
    } else if s == "teal"@ {
        Some(GraphColor::Teal)
    } else if s == "yellow"@ {
        Some(GraphColor::Yellow)
    } else {
        None
    }
}

/// Maps a palette name to its color, or to no color for any other string.
pub fn get_graph_color(color: &str) -> (r: Option<GraphColor>)
    ensures
        r == graph_color_of(color@),
{
    if str_eq(color, "blue") {
        Some(GraphColor::Blue)
    } else if str_eq(color, "green") {
        Some(GraphColor::Green)
    } else if str_eq(color, "grey") {
        Some(GraphColor::Grey)
    } else if str_eq(color, "ink") {
        Some(GraphColor::Ink)
    } else if str_eq(color, "magenta") {
        Some(GraphColor::Magenta)
    } else if str_eq(color, "orange") {
        Some(GraphColor::Orange)
    } else if str_eq(color, "purple") {
        Some(GraphColor::Purple)
    } else if str_eq(color, "red") {
        Some(GraphColor::Red)
    } else if str_eq(color, "teal") {
        Some(GraphColor::Teal)
    } else if str_eq(color, "yellow") {
        Some(GraphColor::Yellow)
    } else {
        None
    }
}

} // verus!
