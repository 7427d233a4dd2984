//! Plain RGB color values carried by entities and log messages.
//!
//! The core never draws anything; colors are data that the rendering
//! collaborator reads back out.

use vstd::prelude::*;

verus! {

#[derive(Clone, Copy, Debug, PartialEq, Eq, Structural)]
pub struct Color {
    pub r: u8,
    pub g: u8,
    pub b: u8,
}

impl Color {
    pub fn rgb(r: u8, g: u8, b: u8) -> (c: Color)
        ensures
            c == (Color { r, g, b }),
    {
        Color { r, g, b }
    }
}

pub open spec fn white() -> Color {
    Color { r: 255, g: 255, b: 255 }
}

pub open spec fn red() -> Color {
    Color { r: 255, g: 0, b: 0 }
}

pub open spec fn green() -> Color {
    Color { r: 0, g: 255, b: 0 }
}

pub open spec fn dark_red() -> Color {
    Color { r: 191, g: 0, b: 0 }
}

pub open spec fn orange() -> Color {
    Color { r: 255, g: 127, b: 0 }
}

pub open spec fn violet() -> Color {
    Color { r: 127, g: 0, b: 255 }
}

pub open spec fn light_violet() -> Color {
    Color { r: 184, g: 114, b: 255 }
}

pub open spec fn light_blue() -> Color {
    Color { r: 63, g: 63, b: 255 }
}

pub open spec fn light_green() -> Color {
    Color { r: 63, g: 255, b: 63 }
}

pub open spec fn yellow() -> Color {
    Color { r: 255, g: 255, b: 0 }
}

pub fn color_white() -> (c: Color)
    ensures
        c == white(),
{
    Color { r: 255, g: 255, b: 255 }
}

pub fn color_red() -> (c: Color)
    ensures
        c == red(),
{
    Color { r: 255, g: 0, b: 0 }
}

pub fn color_green() -> (c: Color)
    ensures
        c == green(),
{
    Color { r: 0, g: 255, b: 0 }
}

pub fn color_dark_red() -> (c: Color)
    ensures
        c == dark_red(),
{
    Color { r: 191, g: 0, b: 0 }
}

} // verus!
