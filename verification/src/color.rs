//! Colors and the color-specification union.
//!
//! A color in a profile is written as an RGBA array, an RGB array, or one of
//! the literals `"primary"` and `"white"`; anything else falls back to black.
//! The literal `"primary"` resolves to the character's primary color at paint
//! time.

use vstd::prelude::*;
use crate::text::str_eq;

verus! {

/// An RGBA color, eight bits per channel.
#[derive(Clone, Copy, Debug, PartialEq, Eq, Structural)]
pub struct Color {
    /// Red channel.
    pub r: u8,
    /// Green channel.
    pub g: u8,
    /// Blue channel.
    pub b: u8,
    /// Alpha channel.
    pub a: u8,
}

/// Opaque black.
pub open spec fn black_spec() -> Color {
    Color { r: 0, g: 0, b: 0, a: 255 }
}

/// Opaque white.
pub open spec fn white_spec() -> Color {
    Color { r: 255, g: 255, b: 255, a: 255 }
}

/// Opaque black.
pub fn black() -> (c: Color)
    ensures
        c == black_spec(),
{
    Color { r: 0, g: 0, b: 0, a: 255 }
}

/// Opaque white.
pub fn white() -> (c: Color)
    ensures
        c == white_spec(),
{
    Color { r: 255, g: 255, b: 255, a: 255 }
}

/// A color as written in a profile.
pub enum ColorInput {
    /// All four channels, in order red, green, blue, alpha.
    RgbaArr([u8; 4]),
    /// Three channels; alpha is taken as 255.
    RgbArr([u8; 3]),
    /// `"primary"`, `"white"`, or anything else for black.
    Literal(String),
}

/// What a color specification resolves to against a primary color.
pub open spec fn resolve_color(ci: ColorInput, primary: Color) -> Color {
    match ci {
        ColorInput::RgbaArr(c) => Color { r: c[0], g: c[1], b: c[2], a: c[3] },
        ColorInput::RgbArr(c) => Color { r: c[0], g: c[1], b: c[2], a: 255 },
        ColorInput::Literal(s) => if s@ == "primary"@ {
            primary
        } else if s@ == "white"@ {
            white_spec()
        } else {
            black_spec()
        },
    }
}

impl ColorInput {
    /// Resolve this specification against `primary`.
    pub fn to_rgba(&self, primary: Color) -> (c: Color)
        ensures
            c == resolve_color(*self, primary),
    {
        match self {
            ColorInput::RgbaArr(arr) => Color { r: arr[0], g: arr[1], b: arr[2], a: arr[3] },
            ColorInput::RgbArr(arr) => Color { r: arr[0], g: arr[1], b: arr[2], a: 255 },
            ColorInput::Literal(s) => {
                if str_eq(s.as_str(), "primary") {
                    primary
                } else if str_eq(s.as_str(), "white") {
                    white()
                } else {
                    black()
                }
            },
        }
    }
}

} // verus!
