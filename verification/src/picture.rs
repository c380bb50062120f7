//! Drawing into an `image` crate RGBA image through `put_pixel`, which takes
//! only pixels inside the image.
use vstd::prelude::*;

use crate::color::Color;
use crate::image_buffer::{image_bytes, image_size, put_pixel, RgbaImage};
use crate::pixels::{
    fits_leftward, lemma_span_fits_by_last, offset, painted, path_fits, plotted, span_fits,
    span_painted,
};
use crate::triangle::{
    edges_answered, edges_ready, flat, half_edges, lemma_edge_at, row_fits, rows_fit, rows_painted,
    span_end, span_start, triangle_answered, triangle_fits, triangle_painted, Half,
};

verus! {

/// The pixel test of a `width` by `height` image: inside it.
pub open spec fn image_fits(width: int, height: int) -> spec_fn(int, int) -> bool {
    |x: int, y: int| 0 <= x < width && 0 <= y < height
}

/// The image holds exactly four bytes per pixel.
pub open spec fn packed(image: RgbaImage) -> bool {
    image_bytes(image).len() == 4 * image_size(image).0 * image_size(image).1
}

/// The buffer `s` with the pixels of `path` that lie above row `height` set
/// to `c`, one after the other; the others are passed over.
pub open spec fn plotted_visible(
    s: Seq<u8>,
    width: int,
    height: int,
    path: Seq<(u32, u32)>,
    c: Color,
) -> Seq<u8>
    decreases path.len(),
{
    if path.len() == 0 {
        s
    } else {
        let p = path.last();
        let before = plotted_visible(s, width, height, path.drop_last(), c);
        if p.1 < height {
            painted(before, width, p.0 as int, p.1 as int, c)
        } else {
            before
        }
    }
}

/// Every pixel of `path` above row `height` lies left of column `width`.
pub open spec fn visible_fits(width: int, height: int, path: Seq<(u32, u32)>) -> bool {
    forall|k: int| 0 <= k < path.len() && path[k].1 < height ==> #[trigger] path[k].0 < width
}

pub proof fn lemma_pixel_in_image(width: int, height: int, x: int, y: int)
    requires
        0 <= x < width,
        0 <= y < height,
    ensures
        0 <= offset(width, x, y),
        offset(width, x, y) + 3 < 4 * width * height,
{
    assert(0 <= width * y) by (nonlinear_arith)
        requires
            0 <= width,
            0 <= y,
    ;
    assert(x * 4 + width * y * 4 + 3 < 4 * width * height) by (nonlinear_arith)
        requires
            0 <= x < width,
            0 <= y < height,
    ;
}

pub proof fn lemma_image_fits_leftward(width: int, height: int)
    ensures
        fits_leftward(image_fits(width, height)),
{
}

/// Sets pixel `(x, y)`, inside the image, to `c`.
pub fn image_set(image: &mut RgbaImage, x: u32, y: u32, c: Color)
    requires
        packed(*old(image)),
        image_fits(image_size(*old(image)).0 as int, image_size(*old(image)).1 as int)(
            x as int,
            y as int,
        ),
    ensures
        packed(*final(image)),
        image_size(*final(image)) == image_size(*old(image)),
        image_bytes(*final(image)) == painted(
            image_bytes(*old(image)),
            image_size(*old(image)).0 as int,
            x as int,
            y as int,
            c,
        ),
{
    proof {
        lemma_pixel_in_image(
            image_size(*image).0 as int,
            image_size(*image).1 as int,
            x as int,
            y as int,
        );
    }
    put_pixel(image, x, y, c);
}

/// Sets the pixels of `path`, all inside the image, to `c`, one after the other.
pub fn image_plot(image: &mut RgbaImage, path: &Vec<(u32, u32)>, c: Color)
    requires
        packed(*old(image)),
        path_fits(
            image_fits(image_size(*old(image)).0 as int, image_size(*old(image)).1 as int),
            path@,
        ),
    ensures
        packed(*final(image)),
        image_size(*final(image)) == image_size(*old(image)),
        image_bytes(*final(image)) == plotted(
            image_bytes(*old(image)),
            image_size(*old(image)).0 as int,
            path@,
            c,
        ),
{
    let ghost size = image_size(*image);
    let n = path.len();
    let mut k: usize = 0;
    while k < n
        invariant
            n == path@.len(),
            0 <= k <= n,
            packed(*image),
            image_size(*image) == size,
            path_fits(image_fits(size.0 as int, size.1 as int), path@),
            image_bytes(*image) == plotted(
                image_bytes(*old(image)),
                size.0 as int,
                path@.take(k as int),
                c,
            ),
        decreases n - k,
    {
        let p = path[k];
        assert(image_fits(size.0 as int, size.1 as int)(p.0 as int, p.1 as int));
        image_set(image, p.0, p.1, c);
        assert(path@.take(k + 1).drop_last() =~= path@.take(k as int));
        k += 1;
    }
    assert(path@.take(n as int) =~= path@);
}

/// Whether every pixel of `path` lies inside a `width` by `height` image.
pub fn image_path_inside(width: u32, height: u32, path: &Vec<(u32, u32)>) -> (ok: bool)
    ensures
        ok == path_fits(image_fits(width as int, height as int), path@),
{
    let n = path.len();
    let mut k: usize = 0;
    while k < n
        invariant
            n == path@.len(),
            0 <= k <= n,
            forall|m: int|
                0 <= m < k ==> #[trigger] image_fits(width as int, height as int)(
                    path@[m].0 as int,
                    path@[m].1 as int,
                ),
        decreases n - k,
    {
        let p = path[k];
        if !(p.0 < width && p.1 < height) {
            assert(!image_fits(width as int, height as int)(
                path@[k as int].0 as int,
                path@[k as int].1 as int,
            ));
            return false;
        }
        k += 1;
    }
    true
}

/// Sets the pixels of `path` above the image's last row to `c`, one after
/// the other, and passes over the others.
pub fn image_plot_visible(image: &mut RgbaImage, path: &Vec<(u32, u32)>, c: Color)
    requires
        packed(*old(image)),
        visible_fits(image_size(*old(image)).0 as int, image_size(*old(image)).1 as int, path@),
    ensures
        packed(*final(image)),
        image_size(*final(image)) == image_size(*old(image)),
        image_bytes(*final(image)) == plotted_visible(
            image_bytes(*old(image)),
            image_size(*old(image)).0 as int,
            image_size(*old(image)).1 as int,
            path@,
            c,
        ),
{
    let ghost size = image_size(*image);
    let n = path.len();
    let mut k: usize = 0;
    while k < n
        invariant
            n == path@.len(),
            0 <= k <= n,
            packed(*image),
            image_size(*image) == size,
            visible_fits(size.0 as int, size.1 as int, path@),
            image_bytes(*image) == plotted_visible(
                image_bytes(*old(image)),
                size.0 as int,
                size.1 as int,
                path@.take(k as int),
                c,
            ),
        decreases n - k,
    {
        let p = path[k];
        let height = crate::image_buffer::image_height(image);
        assert(path@.take(k + 1).drop_last() =~= path@.take(k as int));
        if p.1 < height {
            assert(path@[k as int].0 < size.0);
            image_set(image, p.0, p.1, c);
        }
        k += 1;
    }
    assert(path@.take(n as int) =~= path@);
}

/// Whether every pixel of `path` above row `height` lies left of column `width`.
pub fn image_visible_inside(width: u32, height: u32, path: &Vec<(u32, u32)>) -> (ok: bool)
    ensures
        ok == visible_fits(width as int, height as int, path@),
{
    let n = path.len();
    let mut k: usize = 0;
    while k < n
        invariant
            n == path@.len(),
            0 <= k <= n,
            forall|m: int| 0 <= m < k && path@[m].1 < height ==> #[trigger] path@[m].0 < width,
        decreases n - k,
    {
        let p = path[k];
        if p.1 < height && p.0 >= width {
            assert(path@[k as int].1 < height && !(path@[k as int].0 < width));
            return false;
        }
        k += 1;
    }
    true
}

/// Sets pixels `from <= x < to` of row `y`, all inside the image, to `c`,
/// left to right.
pub fn image_fill_span(image: &mut RgbaImage, y: u32, from: u32, to: u32, c: Color)
    requires
        packed(*old(image)),
        span_fits(
            image_fits(image_size(*old(image)).0 as int, image_size(*old(image)).1 as int),
            y as int,
            from as int,
            to as int,
        ),
    ensures
        packed(*final(image)),
        image_size(*final(image)) == image_size(*old(image)),
        image_bytes(*final(image)) == span_painted(
            image_bytes(*old(image)),
            image_size(*old(image)).0 as int,
            y as int,
            from as int,
            to as int,
            |x: int| c,
        ),
{
    let ghost size = image_size(*image);
    if to <= from {
        return;
    }
    let mut x = from;
    while x < to
        invariant
            from <= x <= to,
            packed(*image),
            image_size(*image) == size,
            span_fits(image_fits(size.0 as int, size.1 as int), y as int, from as int, to as int),
            image_bytes(*image) == span_painted(
                image_bytes(*old(image)),
                size.0 as int,
                y as int,
                from as int,
                x as int,
                |x: int| c,
            ),
        decreases to - x,
    {
        assert(image_fits(size.0 as int, size.1 as int)(x as int, y as int));
        image_set(image, x, y, c);
        x += 1;
    }
}

/// Fills row `y`, crossed at `e`, of the image with `c`, the right crossing
/// excluded.
pub fn image_fill_row(image: &mut RgbaImage, y: u32, e: (u32, u32), c: Color)
    requires
        packed(*old(image)),
        row_fits(
            image_fits(image_size(*old(image)).0 as int, image_size(*old(image)).1 as int),
            y as int,
            e,
            false,
        ),
    ensures
        packed(*final(image)),
        image_size(*final(image)) == image_size(*old(image)),
        image_bytes(*final(image)) == span_painted(
            image_bytes(*old(image)),
            image_size(*old(image)).0 as int,
            y as int,
            span_start(e),
            span_end(e, false),
            |x: int| flat(c)(x, y as int),
        ),
{
    let (x1, x2) = e;
    if x1 < x2 {
        image_fill_span(image, y, x1 + 1, x2, c);
    } else {
        image_fill_span(image, y, x2 + 1, x1, c);
    }
    assert((|x: int| c) =~= (|x: int| flat(c)(x, y as int)));
}

/// Fills rows `lo <= y < hi` of one half of a triangle in the image with `c`.
pub fn image_fill_rows<E: Fn(Half, u32) -> (u32, u32)>(
    image: &mut RgbaImage,
    half: Half,
    lo: u32,
    hi: u32,
    edges: &E,
    c: Color,
)
    requires
        packed(*old(image)),
        edges_ready(*edges),
        rows_fit(
            image_fits(image_size(*old(image)).0 as int, image_size(*old(image)).1 as int),
            lo as int,
            hi as int,
            half_edges(*edges, half),
            false,
        ),
    ensures
        packed(*final(image)),
        image_size(*final(image)) == image_size(*old(image)),
        image_bytes(*final(image)) == rows_painted(
            image_bytes(*old(image)),
            image_size(*old(image)).0 as int,
            lo as int,
            hi as int,
            half_edges(*edges, half),
            false,
            flat(c),
        ),
        edges_answered(*edges, half, lo as int, hi as int),
{
    let ghost size = image_size(*image);
    if hi <= lo {
        return;
    }
    let mut y = lo;
    while y < hi
        invariant
            lo <= y <= hi,
            edges_ready(*edges),
            packed(*image),
            image_size(*image) == size,
            rows_fit(
                image_fits(size.0 as int, size.1 as int),
                lo as int,
                hi as int,
                half_edges(*edges, half),
                false,
            ),
            image_bytes(*image) == rows_painted(
                image_bytes(*old(image)),
                size.0 as int,
                lo as int,
                y as int,
                half_edges(*edges, half),
                false,
                flat(c),
            ),
            edges_answered(*edges, half, lo as int, y as int),
        decreases hi - y,
    {
        let e = edges(half, y);
        proof {
            lemma_edge_at(*edges, half, y, e);
            assert(row_fits(
                image_fits(size.0 as int, size.1 as int),
                y as int,
                half_edges(*edges, half)(y as int),
                false,
            ));
        }
        image_fill_row(image, y, e, c);
        y += 1;
    }
}

/// Fills a triangle with ordered corner rows `rows` (largest first) in the
/// image with `c`: lower half, then upper half.
pub fn image_fill_triangle<E: Fn(Half, u32) -> (u32, u32)>(
    image: &mut RgbaImage,
    rows: (u32, u32, u32),
    edges: &E,
    c: Color,
)
    requires
        packed(*old(image)),
        edges_ready(*edges),
        triangle_fits(
            image_fits(image_size(*old(image)).0 as int, image_size(*old(image)).1 as int),
            rows,
            *edges,
            false,
        ),
    ensures
        packed(*final(image)),
        image_size(*final(image)) == image_size(*old(image)),
        image_bytes(*final(image)) == triangle_painted(
            image_bytes(*old(image)),
            image_size(*old(image)).0 as int,
            rows,
            *edges,
            false,
            flat(c),
        ),
        triangle_answered(*edges, rows),
{
    image_fill_rows(image, Half::Lower, rows.2, rows.1, edges, c);
    image_fill_rows(image, Half::Upper, rows.1, rows.0, edges, c);
}

/// Whether every row `lo <= y < hi` of one half of a triangle lies inside a
/// `width` by `height` image. `edges` is asked about every row.
pub fn image_rows_inside<E: Fn(Half, u32) -> (u32, u32)>(
    width: u32,
    height: u32,
    half: Half,
    lo: u32,
    hi: u32,
    edges: &E,
) -> (ok: bool)
    requires
        edges_ready(*edges),
    ensures
        ok == rows_fit(image_fits(width as int, height as int), lo as int, hi as int, half_edges(*edges, half), false),
        edges_answered(*edges, half, lo as int, hi as int),
{
    let ghost fits = image_fits(width as int, height as int);
    let ghost edge = half_edges(*edges, half);
    proof {
        lemma_image_fits_leftward(width as int, height as int);
    }
    if hi <= lo {
        return true;
    }
    let mut ok = true;
    let mut y = lo;
    while y < hi
        invariant
            lo <= y <= hi,
            edges_ready(*edges),
            fits == image_fits(width as int, height as int),
            edge == half_edges(*edges, half),
            fits_leftward(fits),
            ok == (forall|z: int| lo <= z < y ==> #[trigger] row_fits(fits, z, edge(z), false)),
            edges_answered(*edges, half, lo as int, y as int),
        decreases hi - y,
    {
        let e = edges(half, y);
        proof {
            lemma_edge_at(*edges, half, y, e);
        }
        let (x1, x2) = e;
        let row_ok = if !(x1 < x2 || x2 < u32::MAX) {
            assert(!row_fits(fits, y as int, edge(y as int), false));
            false
        } else {
            let start: u32 = if x1 < x2 {
                x1 + 1
            } else {
                x2 + 1
            };
            let end: u32 = if x1 < x2 {
                x2
            } else {
                x1
            };
            if start < end && !(end - 1 < width && y < height) {
                assert(!fits((end - 1) as int, y as int));
                assert(!span_fits(fits, y as int, span_start(e), span_end(e, false)));
                assert(!row_fits(fits, y as int, edge(y as int), false));
                false
            } else {
                proof {
                    lemma_span_fits_by_last(fits, y as int, span_start(e), span_end(e, false));
                }
                assert(row_fits(fits, y as int, edge(y as int), false));
                true
            }
        };
        ok = ok && row_ok;
        y += 1;
    }
    ok
}

/// Whether a triangle with ordered corner rows `rows` lies inside a `width`
/// by `height` image.
pub fn image_triangle_inside<E: Fn(Half, u32) -> (u32, u32)>(
    width: u32,
    height: u32,
    rows: (u32, u32, u32),
    edges: &E,
) -> (ok: bool)
    requires
        edges_ready(*edges),
    ensures
        ok == triangle_fits(image_fits(width as int, height as int), rows, *edges, false),
        triangle_answered(*edges, rows),
{
    let lower = image_rows_inside(width, height, Half::Lower, rows.2, rows.1, edges);
    let upper = image_rows_inside(width, height, Half::Upper, rows.1, rows.0, edges);
    lower && upper
}

} // verus!
