use vstd::prelude::*;

use crate::color::Color;

verus! {

/// Byte offset of the first channel of pixel `(x, y)` in a packed RGBA
/// buffer whose rows are `width` pixels wide.
pub open spec fn offset(width: int, x: int, y: int) -> int {
    x * 4 + width * y * 4
}

/// The buffer `s` with the four channels of pixel `(x, y)` set to `c`.
pub open spec fn painted(s: Seq<u8>, width: int, x: int, y: int, c: Color) -> Seq<u8> {
    let i = offset(width, x, y);
    s.update(i, c.r).update(i + 1, c.g).update(i + 2, c.b).update(i + 3, c.a)
}

/// Whether pixel `(x, y)` can be written into a buffer of `len` bytes:
/// its four byte offsets are computed in `u32` without overflow and lie
/// inside the buffer.
pub open spec fn writable(len: int, width: int, x: int, y: int) -> bool {
    &&& offset(width, x, y) + 3 <= u32::MAX
    &&& offset(width, x, y) + 3 < len
}

/// Why a drawing was refused: one of its pixels falls outside the buffer (or
/// its byte offset does not fit in `u32`).
#[derive(Clone, Copy, Debug, PartialEq, Eq, Structural)]
pub enum DrawError {
    OutOfBounds,
}

/// A pixel test for a buffer of `len` bytes with rows `width` pixels wide:
/// `writable` at every position.
pub open spec fn buffer_fits(len: int, width: int) -> spec_fn(int, int) -> bool {
    |x: int, y: int| writable(len, width, x, y)
}

/// The buffer `s` with the pixels of `path`, one after the other, set to `c`.
pub open spec fn plotted(s: Seq<u8>, width: int, path: Seq<(u32, u32)>, c: Color) -> Seq<u8>
    decreases path.len(),
{
    if path.len() == 0 {
        s
    } else {
        let p = path.last();
        painted(plotted(s, width, path.drop_last(), c), width, p.0 as int, p.1 as int, c)
    }
}

/// Every pixel of `path` passes the test `fits`.
pub open spec fn path_fits(fits: spec_fn(int, int) -> bool, path: Seq<(u32, u32)>) -> bool {
    forall|k: int| 0 <= k < path.len() ==> #[trigger] fits(path[k].0 as int, path[k].1 as int)
}

/// The buffer `s` with pixels `from`, `from + 1`, ..., `to - 1` of row `y`,
/// in that order, set to `shade` of their column.
pub open spec fn span_painted(
    s: Seq<u8>,
    width: int,
    y: int,
    from: int,
    to: int,
    shade: spec_fn(int) -> Color,
) -> Seq<u8>
    decreases to - from,
{
    if to <= from {
        s
    } else {
        painted(span_painted(s, width, y, from, to - 1, shade), width, to - 1, y, shade(to - 1))
    }
}

/// Every pixel `from <= x < to` of row `y` passes the test `fits`.
pub open spec fn span_fits(fits: spec_fn(int, int) -> bool, y: int, from: int, to: int) -> bool {
    forall|x: int| from <= x < to ==> #[trigger] fits(x, y)
}

/// The pixel test passes at `x` whenever it passes further right on the same row.
pub open spec fn fits_leftward(fits: spec_fn(int, int) -> bool) -> bool {
    forall|x1: int, x2: int, y: int|
        0 <= x1 <= x2 && #[trigger] fits(x2, y) ==> #[trigger] fits(x1, y)
}

pub proof fn lemma_buffer_fits_leftward(len: int, width: int)
    requires
        0 <= width,
    ensures
        fits_leftward(buffer_fits(len, width)),
{
    assert forall|x1: int, x2: int, y: int|
        0 <= x1 <= x2 && #[trigger] buffer_fits(len, width)(x2, y) implies #[trigger] buffer_fits(
        len,
        width,
    )(x1, y) by {
        assert(offset(width, x1, y) <= offset(width, x2, y));
    }
}

/// A span whose last pixel fits fits everywhere, for a test that holds leftward.
pub proof fn lemma_span_fits_by_last(fits: spec_fn(int, int) -> bool, y: int, from: int, to: int)
    requires
        fits_leftward(fits),
        0 <= from,
        from < to ==> fits(to - 1, y),
    ensures
        span_fits(fits, y, from, to),
{
    assert forall|x: int| from <= x < to implies #[trigger] fits(x, y) by {
        assert(fits(to - 1, y));
    }
}

/// The byte offset of pixel `(x, y)` when it can be written into a buffer of
/// `len` bytes, and `None` when it cannot.
pub fn checked_offset(len: usize, width: u32, x: u32, y: u32) -> (r: Option<usize>)
    ensures
        r is Some <==> writable(len as int, width as int, x as int, y as int),
        r matches Some(i) ==> i == offset(width as int, x as int, y as int),
{
    proof {
        assert((width as int) * (y as int) <= u64::MAX) by (nonlinear_arith)
            requires
                width <= u32::MAX,
                y <= u32::MAX,
        ;
        assert(0 <= (width as int) * (y as int)) by (nonlinear_arith);
    }
    let wy: u64 = width as u64 * y as u64;
    if wy > u32::MAX as u64 {
        return None;
    }
    let off: u64 = x as u64 * 4 + wy * 4;
    if off + 3 > u32::MAX as u64 || off + 3 >= len as u64 {
        None
    } else {
        Some(off as usize)
    }
}

/// Byte offset of pixel `(x, y)`, computed as `x * 4 + width * y * 4`.
pub fn pixel_offset(width: u32, x: u32, y: u32) -> (i: usize)
    requires
        offset(width as int, x as int, y as int) + 3 <= u32::MAX,
    ensures
        i == offset(width as int, x as int, y as int),
{
    proof {
        assert(0 <= width * y) by (nonlinear_arith);
    }
    (x * 4 + width * y * 4) as usize
}

/// Writes colour `c` at pixel `(x, y)` of a packed RGBA buffer.
pub fn set_pixel(pixels: &mut Vec<u8>, width: u32, x: u32, y: u32, c: Color)
    requires
        writable(old(pixels)@.len() as int, width as int, x as int, y as int),
    ensures
        final(pixels)@.len() == old(pixels)@.len(),
        final(pixels)@ == painted(old(pixels)@, width as int, x as int, y as int, c),
{
    let i = pixel_offset(width, x, y);
    pixels.set(i, c.r);
    pixels.set(i + 1, c.g);
    pixels.set(i + 2, c.b);
    pixels.set(i + 3, c.a);
}

/// Writes `c` at every pixel of `path`, in order.
pub fn plot_path(pixels: &mut Vec<u8>, width: u32, path: &Vec<(u32, u32)>, c: Color)
    requires
        path_fits(buffer_fits(old(pixels)@.len() as int, width as int), path@),
    ensures
        final(pixels)@.len() == old(pixels)@.len(),
        final(pixels)@ == plotted(old(pixels)@, width as int, path@, c),
{
    let n = path.len();
    let mut k: usize = 0;
    while k < n
        invariant
            n == path@.len(),
            0 <= k <= n,
            pixels@.len() == old(pixels)@.len(),
            path_fits(buffer_fits(old(pixels)@.len() as int, width as int), path@),
            pixels@ == plotted(old(pixels)@, width as int, path@.take(k as int), c),
        decreases n - k,
    {
        let p = path[k];
        assert(buffer_fits(old(pixels)@.len() as int, width as int)(p.0 as int, p.1 as int));
        set_pixel(pixels, width, p.0, p.1, c);
        assert(path@.take(k + 1).drop_last() =~= path@.take(k as int));
        k += 1;
    }
    assert(path@.take(n as int) =~= path@);
}

/// Checks that every pixel of `path` can be written.
pub fn path_writable(len: usize, width: u32, path: &Vec<(u32, u32)>) -> (ok: bool)
    ensures
        ok == path_fits(buffer_fits(len as int, width as int), path@),
{
    let n = path.len();
    let mut k: usize = 0;
    while k < n
        invariant
            n == path@.len(),
            0 <= k <= n,
            forall|m: int|
                0 <= m < k ==> #[trigger] buffer_fits(len as int, width as int)(
                    path@[m].0 as int,
                    path@[m].1 as int,
                ),
        decreases n - k,
    {
        let p = path[k];
        if checked_offset(len, width, p.0, p.1).is_none() {
            assert(!buffer_fits(len as int, width as int)(path@[k as int].0 as int, path@[k as int].1 as int));
            return false;
        }
        k += 1;
    }
    true
}

/// Writes `c` at pixels `from <= x < to` of row `y`, left to right.
pub fn fill_span(pixels: &mut Vec<u8>, width: u32, y: u32, from: u32, to: u32, c: Color)
    requires
        span_fits(buffer_fits(old(pixels)@.len() as int, width as int), y as int, from as int, to as int),
    ensures
        final(pixels)@.len() == old(pixels)@.len(),
        final(pixels)@ == span_painted(old(pixels)@, width as int, y as int, from as int, to as int, |x: int| c),
{
    let mut x = from;
    if to <= from {
        return;
    }
    while x < to
        invariant
            from <= x <= to,
            pixels@.len() == old(pixels)@.len(),
            span_fits(buffer_fits(old(pixels)@.len() as int, width as int), y as int, from as int, to as int),
            pixels@ == span_painted(old(pixels)@, width as int, y as int, from as int, x as int, |x: int| c),
        decreases to - x,
    {
        assert(buffer_fits(old(pixels)@.len() as int, width as int)(x as int, y as int));
        set_pixel(pixels, width, x, y, c);
        x += 1;
    }
}

} // verus!
