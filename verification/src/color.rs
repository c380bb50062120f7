use vstd::prelude::*;

verus! {

/// One RGBA pixel value, one byte per channel.
#[derive(Clone, Copy, Debug, PartialEq, Eq, Structural)]
pub struct Color {
    pub r: u8,
    pub g: u8,
    pub b: u8,
    pub a: u8,
}

/// Opaque red.
pub open spec fn red() -> Color {
    Color { r: 255, g: 0, b: 0, a: 255 }
}

/// Opaque black.
pub open spec fn black() -> Color {
    Color { r: 0, g: 0, b: 0, a: 255 }
}

/// Opaque green.
pub open spec fn green() -> Color {
    Color { r: 0, g: 255, b: 0, a: 255 }
}

/// The opaque colour with channels `rgb`.
pub open spec fn opaque(rgb: (u8, u8, u8)) -> Color {
    Color { r: rgb.0, g: rgb.1, b: rgb.2, a: 255 }
}

impl Color {
    /// Opaque red, used for line endpoints.
    pub fn red() -> (c: Color)
        ensures
            c == red(),
    {
        Color { r: 255, g: 0, b: 0, a: 255 }
    }

    /// Opaque black, used for the body of lines.
    pub fn black() -> (c: Color)
        ensures
            c == black(),
    {
        Color { r: 0, g: 0, b: 0, a: 255 }
    }

    /// Opaque green, used to fill flat triangles.
    pub fn green() -> (c: Color)
        ensures
            c == green(),
    {
        Color { r: 0, g: 255, b: 0, a: 255 }
    }

    /// An opaque colour from its three colour channels.
    pub fn opaque(rgb: (u8, u8, u8)) -> (c: Color)
        ensures
            c == opaque(rgb),
    {
        Color { r: rgb.0, g: rgb.1, b: rgb.2, a: 255 }
    }
}

} // verus!
