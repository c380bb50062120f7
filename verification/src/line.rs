//! Lines drawn into a packed RGBA buffer: both endpoints marked red, then the
//! pixels of the line's path, which the caller computes, set black one after
//! the other.
use vstd::prelude::*;

use crate::color::{black, red, Color};
use crate::pixels::{buffer_fits, path_fits, painted, plot_path, plotted, set_pixel, writable};

verus! {

/// The two endpoint marks of a raw line from `p1` to `p2` can be written into
/// a buffer of `len` bytes. The second mark goes to column `p2.0` of row `p1.1`.
pub open spec fn raw_marks_fit(len: int, width: int, p1: (u32, u32), p2: (u32, u32)) -> bool {
    &&& writable(len, width, p1.0 as int, p1.1 as int)
    &&& writable(len, width, p2.0 as int, p1.1 as int)
}

/// A raw line from `p1` to `p2` along `path` can be drawn into a buffer of
/// `len` bytes. The second endpoint mark goes to column `p2.0` of row `p1.1`.
pub open spec fn raw_line_fits(
    len: int,
    width: int,
    p1: (u32, u32),
    p2: (u32, u32),
    path: Seq<(u32, u32)>,
) -> bool {
    &&& writable(len, width, p1.0 as int, p1.1 as int)
    &&& writable(len, width, p2.0 as int, p1.1 as int)
    &&& path_fits(buffer_fits(len, width), path)
}

/// The buffer `s` after a raw line: red at `(p1.0, p1.1)`, red at
/// `(p2.0, p1.1)`, then black along `path`.
pub open spec fn raw_line_drawn(
    s: Seq<u8>,
    width: int,
    p1: (u32, u32),
    p2: (u32, u32),
    path: Seq<(u32, u32)>,
) -> Seq<u8> {
    let ends = painted(
        painted(s, width, p1.0 as int, p1.1 as int, red()),
        width,
        p2.0 as int,
        p1.1 as int,
        red(),
    );
    plotted(ends, width, path, black())
}

/// Draws a raw line into `pixels`.
pub fn raw_line(
    pixels: &mut Vec<u8>,
    width: u32,
    p1: (u32, u32),
    p2: (u32, u32),
    path: &Vec<(u32, u32)>,
)
    requires
        raw_line_fits(old(pixels)@.len() as int, width as int, p1, p2, path@),
    ensures
        final(pixels)@.len() == old(pixels)@.len(),
        final(pixels)@ == raw_line_drawn(old(pixels)@, width as int, p1, p2, path@),
{
    set_pixel(pixels, width, p1.0, p1.1, Color::red());
    set_pixel(pixels, width, p2.0, p1.1, Color::red());
    plot_path(pixels, width, path, Color::black());
}

} // verus!
