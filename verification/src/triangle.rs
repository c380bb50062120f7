//! Filling a triangle row by row between its edges.
//!
//! The corners come ordered by `order_by_row`: `sorted.0` on the largest
//! row, `sorted.2` on the smallest. The lower half of the triangle covers rows
//! `sorted.2.1 <= y < sorted.1.1`, the upper half rows
//! `sorted.1.1 <= y < sorted.0.1`. For each row the caller's `edges` gives the
//! two columns `(x1, x2)` where the row crosses the triangle's edges; the
//! pixels strictly between them are filled (with the right one included for
//! the gradient fill), left to right.
use vstd::prelude::*;

use crate::color::{opaque, Color};
use crate::pixels::{
    buffer_fits, checked_offset, fill_span, fits_leftward, lemma_buffer_fits_leftward,
    lemma_span_fits_by_last, set_pixel, span_fits, span_painted,
};

verus! {

/// Which half of a triangle a row belongs to.
#[derive(Clone, Copy, Debug, PartialEq, Eq, Structural)]
pub enum Half {
    Lower,
    Upper,
}

/// `edges` can be called on every row of either half, and gives one answer
/// for each.
pub open spec fn edges_ready<E: Fn(Half, u32) -> (u32, u32)>(edges: E) -> bool {
    &&& forall|h: Half, y: u32| #[trigger] call_requires(edges, (h, y))
    &&& forall|h: Half, y: u32, e1: (u32, u32), e2: (u32, u32)|
        #[trigger] call_ensures(edges, (h, y), e1) && #[trigger] call_ensures(edges, (h, y), e2)
            ==> e1 == e2
}

/// The answer of `edges` for row `y` of `half`.
pub open spec fn edge_at<E: Fn(Half, u32) -> (u32, u32)>(edges: E, half: Half, y: int) -> (u32, u32) {
    choose|e: (u32, u32)| #[trigger] call_ensures(edges, (half, y as u32), e)
}

/// `edge_at` for every row of one half.
pub open spec fn half_edges<E: Fn(Half, u32) -> (u32, u32)>(edges: E, half: Half) -> spec_fn(int) -> (u32, u32) {
    |y: int| edge_at(edges, half, y)
}

/// `shade` can be called at every pixel, and gives one answer for each.
pub open spec fn shade_ready<S: Fn(u32, u32) -> (u8, u8, u8)>(shade: S) -> bool {
    &&& forall|x: u32, y: u32| #[trigger] call_requires(shade, (x, y))
    &&& forall|x: u32, y: u32, c1: (u8, u8, u8), c2: (u8, u8, u8)|
        #[trigger] call_ensures(shade, (x, y), c1) && #[trigger] call_ensures(shade, (x, y), c2)
            ==> c1 == c2
}

/// The answer of `shade` at pixel `(x, y)`.
pub open spec fn shade_at<S: Fn(u32, u32) -> (u8, u8, u8)>(shade: S, x: int, y: int) -> (u8, u8, u8) {
    choose|c: (u8, u8, u8)| #[trigger] call_ensures(shade, (x as u32, y as u32), c)
}

/// The opaque colour of `shade` at every pixel.
pub open spec fn shading<S: Fn(u32, u32) -> (u8, u8, u8)>(shade: S) -> spec_fn(int, int) -> Color {
    |x: int, y: int| opaque(shade_at(shade, x, y))
}

/// One colour at every pixel.
pub open spec fn flat(c: Color) -> spec_fn(int, int) -> Color {
    |x: int, y: int| c
}

/// First column filled on a row crossed at `e`: one right of the left crossing.
pub open spec fn span_start(e: (u32, u32)) -> int {
    if e.0 < e.1 {
        e.0 + 1
    } else {
        e.1 + 1
    }
}

/// One past the last column filled on a row crossed at `e`: the right
/// crossing, or one past it when the right crossing is filled too.
pub open spec fn span_end(e: (u32, u32), inclusive: bool) -> int {
    let right: int = if e.0 < e.1 {
        e.1 as int
    } else {
        e.0 as int
    };
    if inclusive {
        right + 1
    } else {
        right
    }
}

/// The first column of the span is computed in `u32` without overflow.
pub open spec fn start_computable(e: (u32, u32)) -> bool {
    e.0 < e.1 || e.1 < u32::MAX
}

/// Row `y`, crossed at `e`, can be filled: its first column is computable
/// and every pixel of its span passes `fits`.
pub open spec fn row_fits(fits: spec_fn(int, int) -> bool, y: int, e: (u32, u32), inclusive: bool) -> bool {
    start_computable(e) && span_fits(fits, y, span_start(e), span_end(e, inclusive))
}

/// Every row `lo <= y < hi` can be filled.
pub open spec fn rows_fit(
    fits: spec_fn(int, int) -> bool,
    lo: int,
    hi: int,
    edge: spec_fn(int) -> (u32, u32),
    inclusive: bool,
) -> bool {
    forall|y: int| lo <= y < hi ==> #[trigger] row_fits(fits, y, edge(y), inclusive)
}

/// The buffer `s` with rows `lo, lo + 1, ..., hi - 1`, in that order, filled
/// between their crossings with the colours of `shade`.
pub open spec fn rows_painted(
    s: Seq<u8>,
    width: int,
    lo: int,
    hi: int,
    edge: spec_fn(int) -> (u32, u32),
    inclusive: bool,
    shade: spec_fn(int, int) -> Color,
) -> Seq<u8>
    decreases hi - lo,
{
    if hi <= lo {
        s
    } else {
        let y = hi - 1;
        span_painted(
            rows_painted(s, width, lo, y, edge, inclusive, shade),
            width,
            y,
            span_start(edge(y)),
            span_end(edge(y), inclusive),
            |x: int| shade(x, y),
        )
    }
}

/// The buffer `s` with the triangle of ordered corner rows `top >= mid >= bottom`
/// filled: first the lower half, then the upper half.
pub open spec fn triangle_painted<E: Fn(Half, u32) -> (u32, u32)>(
    s: Seq<u8>,
    width: int,
    rows: (u32, u32, u32),
    edges: E,
    inclusive: bool,
    shade: spec_fn(int, int) -> Color,
) -> Seq<u8> {
    let lower = rows_painted(
        s,
        width,
        rows.2 as int,
        rows.1 as int,
        half_edges(edges, Half::Lower),
        inclusive,
        shade,
    );
    rows_painted(lower, width, rows.1 as int, rows.0 as int, half_edges(edges, Half::Upper), inclusive, shade)
}

/// Every row of both halves can be filled.
pub open spec fn triangle_fits<E: Fn(Half, u32) -> (u32, u32)>(
    fits: spec_fn(int, int) -> bool,
    rows: (u32, u32, u32),
    edges: E,
    inclusive: bool,
) -> bool {
    &&& rows_fit(fits, rows.2 as int, rows.1 as int, half_edges(edges, Half::Lower), inclusive)
    &&& rows_fit(fits, rows.1 as int, rows.0 as int, half_edges(edges, Half::Upper), inclusive)
}

/// `edges` has been asked about every row `lo <= y < hi` of `half`, so
/// `edge_at` there is an answer it gave.
pub open spec fn edges_answered<E: Fn(Half, u32) -> (u32, u32)>(edges: E, half: Half, lo: int, hi: int) -> bool {
    forall|y: int|
        #![trigger edge_at(edges, half, y)]
        lo <= y < hi ==> call_ensures(edges, (half, y as u32), edge_at(edges, half, y))
}

/// `shade` has been asked about every pixel `from <= x < to` of row `y`, so
/// `shade_at` there is an answer it gave.
pub open spec fn shade_answered<S: Fn(u32, u32) -> (u8, u8, u8)>(shade: S, y: int, from: int, to: int) -> bool {
    forall|x: int|
        #![trigger shade_at(shade, x, y)]
        from <= x < to ==> call_ensures(shade, (x as u32, y as u32), shade_at(shade, x, y))
}

/// `shade` has been asked about every pixel filled on rows `lo <= y < hi`.
pub open spec fn rows_shade_answered<S: Fn(u32, u32) -> (u8, u8, u8)>(
    shade: S,
    lo: int,
    hi: int,
    edge: spec_fn(int) -> (u32, u32),
) -> bool {
    forall|y: int|
        lo <= y < hi ==> #[trigger] shade_answered(shade, y, span_start(edge(y)), span_end(edge(y), true))
}

/// `edges` has been asked about every row of both halves of the triangle.
pub open spec fn triangle_answered<E: Fn(Half, u32) -> (u32, u32)>(edges: E, rows: (u32, u32, u32)) -> bool {
    &&& edges_answered(edges, Half::Lower, rows.2 as int, rows.1 as int)
    &&& edges_answered(edges, Half::Upper, rows.1 as int, rows.0 as int)
}

/// `shade` has been asked about every pixel filled in the triangle.
pub open spec fn triangle_shade_answered<E: Fn(Half, u32) -> (u32, u32), S: Fn(u32, u32) -> (u8, u8, u8)>(
    shade: S,
    edges: E,
    rows: (u32, u32, u32),
) -> bool {
    &&& rows_shade_answered(shade, rows.2 as int, rows.1 as int, half_edges(edges, Half::Lower))
    &&& rows_shade_answered(shade, rows.1 as int, rows.0 as int, half_edges(edges, Half::Upper))
}

pub proof fn lemma_edge_at<E: Fn(Half, u32) -> (u32, u32)>(edges: E, half: Half, y: u32, e: (u32, u32))
    requires
        edges_ready(edges),
        call_ensures(edges, (half, y), e),
    ensures
        edge_at(edges, half, y as int) == e,
        half_edges(edges, half)(y as int) == e,
{
    let c = edge_at(edges, half, y as int);
    assert(call_ensures(edges, (half, y), c));
}

pub proof fn lemma_shade_at<S: Fn(u32, u32) -> (u8, u8, u8)>(shade: S, x: u32, y: u32, c: (u8, u8, u8))
    requires
        shade_ready(shade),
        call_ensures(shade, (x, y), c),
    ensures
        shade_at(shade, x as int, y as int) == c,
        shading(shade)(x as int, y as int) == opaque(c),
{
    let d = shade_at(shade, x as int, y as int);
    assert(call_ensures(shade, (x, y), d));
}

/// Fills one row of a packed RGBA buffer between its crossings `e` with `c`,
/// the right crossing excluded.
pub fn fill_row(pixels: &mut Vec<u8>, width: u32, y: u32, e: (u32, u32), c: Color)
    requires
        row_fits(buffer_fits(old(pixels)@.len() as int, width as int), y as int, e, false),
    ensures
        final(pixels)@.len() == old(pixels)@.len(),
        final(pixels)@ == span_painted(
            old(pixels)@,
            width as int,
            y as int,
            span_start(e),
            span_end(e, false),
            |x: int| flat(c)(x, y as int),
        ),
{
    let (x1, x2) = e;
    if x1 < x2 {
        fill_span(pixels, width, y, x1 + 1, x2, c);
    } else {
        fill_span(pixels, width, y, x2 + 1, x1, c);
    }
    assert((|x: int| c) =~= (|x: int| flat(c)(x, y as int)));
}

/// Fills one row of a packed RGBA buffer between its crossings `e`, the right
/// crossing included, each pixel with the opaque colour `shade` gives it.
pub fn shade_row<S: Fn(u32, u32) -> (u8, u8, u8)>(
    pixels: &mut Vec<u8>,
    width: u32,
    y: u32,
    e: (u32, u32),
    shade: &S,
)
    requires
        shade_ready(*shade),
        row_fits(buffer_fits(old(pixels)@.len() as int, width as int), y as int, e, true),
    ensures
        final(pixels)@.len() == old(pixels)@.len(),
        final(pixels)@ == span_painted(
            old(pixels)@,
            width as int,
            y as int,
            span_start(e),
            span_end(e, true),
            |x: int| shading(*shade)(x, y as int),
        ),
        shade_answered(*shade, y as int, span_start(e), span_end(e, true)),
{
    let (x1, x2) = e;
    let from: u32 = if x1 < x2 {
        x1 + 1
    } else {
        x2 + 1
    };
    let right: u32 = if x1 < x2 {
        x2
    } else {
        x1
    };
    let to: u64 = right as u64 + 1;
    let ghost shade_y = |x: int| shading(*shade)(x, y as int);
    let mut x: u64 = from as u64;
    while x < to
        invariant
            from <= x <= to,
            to == span_end(e, true),
            from == span_start(e),
            to <= u32::MAX + 1,
            shade_ready(*shade),
            shade_y == (|x: int| shading(*shade)(x, y as int)),
            pixels@.len() == old(pixels)@.len(),
            span_fits(buffer_fits(old(pixels)@.len() as int, width as int), y as int, from as int, to as int),
            pixels@ == span_painted(old(pixels)@, width as int, y as int, from as int, x as int, shade_y),
            shade_answered(*shade, y as int, from as int, x as int),
        decreases to - x,
    {
        let xu = x as u32;
        let rgb = shade(xu, y);
        proof {
            lemma_shade_at(*shade, xu, y, rgb);
        }
        assert(buffer_fits(old(pixels)@.len() as int, width as int)(xu as int, y as int));
        set_pixel(pixels, width, xu, y, Color::opaque(rgb));
        x += 1;
    }
}

/// Fills rows `lo <= y < hi` of one half of a triangle with `c`, the right
/// crossing of each row excluded.
pub fn fill_rows<E: Fn(Half, u32) -> (u32, u32)>(
    pixels: &mut Vec<u8>,
    width: u32,
    half: Half,
    lo: u32,
    hi: u32,
    edges: &E,
    c: Color,
)
    requires
        edges_ready(*edges),
        rows_fit(buffer_fits(old(pixels)@.len() as int, width as int), lo as int, hi as int, half_edges(*edges, half), false),
    ensures
        final(pixels)@.len() == old(pixels)@.len(),
        final(pixels)@ == rows_painted(old(pixels)@, width as int, lo as int, hi as int, half_edges(*edges, half), false, flat(c)),
        edges_answered(*edges, half, lo as int, hi as int),
{
    if hi <= lo {
        return;
    }
    let mut y = lo;
    while y < hi
        invariant
            lo <= y <= hi,
            edges_ready(*edges),
            pixels@.len() == old(pixels)@.len(),
            rows_fit(buffer_fits(old(pixels)@.len() as int, width as int), lo as int, hi as int, half_edges(*edges, half), false),
            pixels@ == rows_painted(old(pixels)@, width as int, lo as int, y as int, half_edges(*edges, half), false, flat(c)),
            edges_answered(*edges, half, lo as int, y as int),
        decreases hi - y,
    {
        let e = edges(half, y);
        proof {
            lemma_edge_at(*edges, half, y, e);
            assert(row_fits(buffer_fits(old(pixels)@.len() as int, width as int), y as int, half_edges(*edges, half)(y as int), false));
        }
        fill_row(pixels, width, y, e, c);
        y += 1;
    }
}

/// Fills rows `lo <= y < hi` of one half of a triangle with the opaque
/// colours of `shade`, the right crossing of each row included.
pub fn shade_rows<E: Fn(Half, u32) -> (u32, u32), S: Fn(u32, u32) -> (u8, u8, u8)>(
    pixels: &mut Vec<u8>,
    width: u32,
    half: Half,
    lo: u32,
    hi: u32,
    edges: &E,
    shade: &S,
)
    requires
        edges_ready(*edges),
        shade_ready(*shade),
        rows_fit(buffer_fits(old(pixels)@.len() as int, width as int), lo as int, hi as int, half_edges(*edges, half), true),
    ensures
        final(pixels)@.len() == old(pixels)@.len(),
        final(pixels)@ == rows_painted(old(pixels)@, width as int, lo as int, hi as int, half_edges(*edges, half), true, shading(*shade)),
        edges_answered(*edges, half, lo as int, hi as int),
        rows_shade_answered(*shade, lo as int, hi as int, half_edges(*edges, half)),
{
    if hi <= lo {
        return;
    }
    let mut y = lo;
    while y < hi
        invariant
            lo <= y <= hi,
            edges_ready(*edges),
            shade_ready(*shade),
            pixels@.len() == old(pixels)@.len(),
            rows_fit(buffer_fits(old(pixels)@.len() as int, width as int), lo as int, hi as int, half_edges(*edges, half), true),
            pixels@ == rows_painted(old(pixels)@, width as int, lo as int, y as int, half_edges(*edges, half), true, shading(*shade)),
            edges_answered(*edges, half, lo as int, y as int),
            rows_shade_answered(*shade, lo as int, y as int, half_edges(*edges, half)),
        decreases hi - y,
    {
        let e = edges(half, y);
        proof {
            lemma_edge_at(*edges, half, y, e);
            assert(row_fits(buffer_fits(old(pixels)@.len() as int, width as int), y as int, half_edges(*edges, half)(y as int), true));
        }
        shade_row(pixels, width, y, e, shade);
        y += 1;
    }
}

/// Whether every row `lo <= y < hi` of one half of a triangle can be filled
/// in a buffer of `len` bytes. `edges` is asked about every row.
pub fn rows_writable<E: Fn(Half, u32) -> (u32, u32)>(
    len: usize,
    width: u32,
    half: Half,
    lo: u32,
    hi: u32,
    edges: &E,
    inclusive: bool,
) -> (ok: bool)
    requires
        edges_ready(*edges),
    ensures
        ok == rows_fit(buffer_fits(len as int, width as int), lo as int, hi as int, half_edges(*edges, half), inclusive),
        edges_answered(*edges, half, lo as int, hi as int),
{
    let ghost fits = buffer_fits(len as int, width as int);
    let ghost edge = half_edges(*edges, half);
    proof {
        lemma_buffer_fits_leftward(len as int, width as int);
    }
    if hi <= lo {
        return true;
    }
    let mut ok = true;
    let mut y = lo;
    while y < hi
        invariant
            lo <= y <= hi,
            edges_ready(*edges),
            fits == buffer_fits(len as int, width as int),
            edge == half_edges(*edges, half),
            fits_leftward(fits),
            ok == (forall|z: int| lo <= z < y ==> #[trigger] row_fits(fits, z, edge(z), inclusive)),
            edges_answered(*edges, half, lo as int, y as int),
        decreases hi - y,
    {
        let e = edges(half, y);
        proof {
            lemma_edge_at(*edges, half, y, e);
        }
        let (x1, x2) = e;
        let row_ok = if !(x1 < x2 || x2 < u32::MAX) {
            assert(!row_fits(fits, y as int, edge(y as int), inclusive));
            false
        } else {
            let start: u32 = if x1 < x2 {
                x1 + 1
            } else {
                x2 + 1
            };
            let right: u32 = if x1 < x2 {
                x2
            } else {
                x1
            };
            let end: u64 = if inclusive {
                right as u64 + 1
            } else {
                right as u64
            };
            assert(end == span_end(e, inclusive));
            if (start as u64) < end && checked_offset(len, width, (end - 1) as u32, y).is_none() {
                assert(!fits((end - 1) as int, y as int));
                assert(!span_fits(fits, y as int, span_start(e), span_end(e, inclusive)));
                assert(!row_fits(fits, y as int, edge(y as int), inclusive));
                false
            } else {
                proof {
                    lemma_span_fits_by_last(fits, y as int, span_start(e), span_end(e, inclusive));
                }
                assert(row_fits(fits, y as int, edge(y as int), inclusive));
                true
            }
        };
        ok = ok && row_ok;
        y += 1;
    }
    ok
}

/// Fills a triangle with ordered corner rows `rows` (largest first) into a
/// packed RGBA buffer with `c`: lower half, then upper half.
pub fn fill_triangle<E: Fn(Half, u32) -> (u32, u32)>(
    pixels: &mut Vec<u8>,
    width: u32,
    rows: (u32, u32, u32),
    edges: &E,
    c: Color,
)
    requires
        edges_ready(*edges),
        triangle_fits(buffer_fits(old(pixels)@.len() as int, width as int), rows, *edges, false),
    ensures
        final(pixels)@.len() == old(pixels)@.len(),
        final(pixels)@ == triangle_painted(old(pixels)@, width as int, rows, *edges, false, flat(c)),
        triangle_answered(*edges, rows),
{
    fill_rows(pixels, width, Half::Lower, rows.2, rows.1, edges, c);
    fill_rows(pixels, width, Half::Upper, rows.1, rows.0, edges, c);
}

/// Fills a triangle with ordered corner rows `rows` (largest first) into a
/// packed RGBA buffer with the opaque colours of `shade`.
pub fn shade_triangle<E: Fn(Half, u32) -> (u32, u32), S: Fn(u32, u32) -> (u8, u8, u8)>(
    pixels: &mut Vec<u8>,
    width: u32,
    rows: (u32, u32, u32),
    edges: &E,
    shade: &S,
)
    requires
        edges_ready(*edges),
        shade_ready(*shade),
        triangle_fits(buffer_fits(old(pixels)@.len() as int, width as int), rows, *edges, true),
    ensures
        final(pixels)@.len() == old(pixels)@.len(),
        final(pixels)@ == triangle_painted(old(pixels)@, width as int, rows, *edges, true, shading(*shade)),
        triangle_answered(*edges, rows),
        triangle_shade_answered(*shade, *edges, rows),
{
    shade_rows(pixels, width, Half::Lower, rows.2, rows.1, edges, shade);
    shade_rows(pixels, width, Half::Upper, rows.1, rows.0, edges, shade);
}

/// Whether a triangle with ordered corner rows `rows` can be filled into a
/// buffer of `len` bytes. `edges` is asked about every row.
pub fn triangle_writable<E: Fn(Half, u32) -> (u32, u32)>(
    len: usize,
    width: u32,
    rows: (u32, u32, u32),
    edges: &E,
    inclusive: bool,
) -> (ok: bool)
    requires
        edges_ready(*edges),
    ensures
        ok == triangle_fits(buffer_fits(len as int, width as int), rows, *edges, inclusive),
        triangle_answered(*edges, rows),
{
    let lower = rows_writable(len, width, Half::Lower, rows.2, rows.1, edges, inclusive);
    let upper = rows_writable(len, width, Half::Upper, rows.1, rows.0, edges, inclusive);
    lower && upper
}

} // verus!
