//! Laws of drawing: which pixels a line or a triangle fill changes and to
//! what, that drawing the same thing twice changes nothing more, and how the
//! flat, gradient and raw fills relate.
use vstd::prelude::*;

use crate::color::{black, green, opaque, red, Color};
use crate::picture::{image_fits, lemma_pixel_in_image};
use crate::line::{raw_line_drawn, raw_line_fits};
use crate::pixels::{buffer_fits, offset, painted, path_fits, plotted, span_fits, span_painted, writable};
use crate::order::{corner, lemma_ordered_exists, sorted_by_row, spot, Corner};
use crate::picture::{plotted_visible, visible_fits};
use crate::renderer::{blank, demo_line_drawn, line_drawn, line_inside, outline_inside, outlined, raw_outline_fits, raw_outlined, Outline};
use crate::triangle::{
    edge_at, flat, half_edges, row_fits, rows_fit, rows_painted, shade_at, shading, span_end,
    span_start, triangle_fits, triangle_painted, Half,
};

verus! {

proof fn lemma_row_bytes(width: int, x: int, y: int)
    requires
        0 <= x < width,
        0 <= y,
    ensures
        4 * width * y <= offset(width, x, y),
        offset(width, x, y) + 4 <= 4 * width * (y + 1),
{
    assert(width * y * 4 == 4 * width * y) by (nonlinear_arith);
    assert(4 * width * (y + 1) == 4 * width * y + 4 * width) by (nonlinear_arith);
}

proof fn lemma_rows_apart(width: int, lo: int, hi: int)
    requires
        0 <= width,
        lo <= hi,
    ensures
        4 * width * lo <= 4 * width * hi,
{
    assert(4 * width * lo <= 4 * width * hi) by (nonlinear_arith)
        requires
            0 <= width,
            lo <= hi,
    ;
}

/// Distinct pixels inside a row width have byte ranges that do not overlap.
proof fn lemma_pixels_apart(width: int, x1: int, y1: int, x2: int, y2: int)
    requires
        0 <= x1 < width,
        0 <= x2 < width,
        0 <= y1,
        0 <= y2,
        (x1, y1) != (x2, y2),
    ensures
        offset(width, x1, y1) + 4 <= offset(width, x2, y2) || offset(width, x2, y2) + 4 <= offset(
            width,
            x1,
            y1,
        ),
{
    if y1 < y2 {
        lemma_row_bytes(width, x1, y1);
        lemma_row_bytes(width, x2, y2);
        lemma_rows_apart(width, y1 + 1, y2);
    } else if y2 < y1 {
        lemma_row_bytes(width, x1, y1);
        lemma_row_bytes(width, x2, y2);
        lemma_rows_apart(width, y2 + 1, y1);
    } else {
        assert(x1 != x2);
    }
}

proof fn lemma_painted_keeps(s: Seq<u8>, width: int, height: int, x: int, y: int, c: Color, k: int)
    requires
        s.len() == 4 * width * height,
        image_fits(width, height)(x, y),
        0 <= k < s.len(),
        k < offset(width, x, y) || k >= offset(width, x, y) + 4,
    ensures
        painted(s, width, x, y, c).len() == s.len(),
        painted(s, width, x, y, c)[k] == s[k],
{
    lemma_pixel_in_image(width, height, x, y);
}

proof fn lemma_span_keeps(
    s: Seq<u8>,
    width: int,
    height: int,
    y: int,
    from: int,
    to: int,
    shade: spec_fn(int) -> Color,
    k: int,
)
    requires
        s.len() == 4 * width * height,
        span_fits(image_fits(width, height), y, from, to),
        0 <= k < s.len(),
        k < 4 * width * y || k >= 4 * width * (y + 1),
    ensures
        span_painted(s, width, y, from, to, shade).len() == s.len(),
        span_painted(s, width, y, from, to, shade)[k] == s[k],
    decreases to - from,
{
    if to > from {
        lemma_span_keeps(s, width, height, y, from, to - 1, shade, k);
        assert(image_fits(width, height)(to - 1, y));
        lemma_row_bytes(width, to - 1, y);
        lemma_painted_keeps(
            span_painted(s, width, y, from, to - 1, shade),
            width,
            height,
            to - 1,
            y,
            shade(to - 1),
            k,
        );
    }
}

proof fn lemma_rows_keep(
    s: Seq<u8>,
    width: int,
    height: int,
    lo: int,
    hi: int,
    edge: spec_fn(int) -> (u32, u32),
    inclusive: bool,
    shade: spec_fn(int, int) -> Color,
    k: int,
)
    requires
        0 <= width,
        0 <= lo,
        s.len() == 4 * width * height,
        rows_fit(image_fits(width, height), lo, hi, edge, inclusive),
        0 <= k < s.len(),
        k < 4 * width * lo || k >= 4 * width * hi,
    ensures
        rows_painted(s, width, lo, hi, edge, inclusive, shade).len() == s.len(),
        rows_painted(s, width, lo, hi, edge, inclusive, shade)[k] == s[k],
    decreases hi - lo,
{
    if hi > lo {
        let y = hi - 1;
        lemma_rows_apart(width, lo, y);
        lemma_rows_apart(width, y, hi);
        assert(4 * width * (y + 1) == 4 * width * hi);
        lemma_rows_keep(s, width, height, lo, y, edge, inclusive, shade, k);
        assert(row_fits(image_fits(width, height), y, edge(y), inclusive));
        lemma_span_keeps(
            rows_painted(s, width, lo, y, edge, inclusive, shade),
            width,
            height,
            y,
            span_start(edge(y)),
            span_end(edge(y), inclusive),
            |x: int| shade(x, y),
            k,
        );
    }
}

/// Filling a triangle that lies inside a `width` by `height` image, with its
/// corner rows ordered `rows.0 >= rows.1 >= rows.2`, changes no byte outside
/// the rows `rows.2 <= y < rows.0` that it spans.
pub proof fn law_triangle_stays_in_its_rows<E: Fn(Half, u32) -> (u32, u32)>(
    s: Seq<u8>,
    width: int,
    height: int,
    rows: (u32, u32, u32),
    edges: E,
    inclusive: bool,
    shade: spec_fn(int, int) -> Color,
    k: int,
)
    requires
        0 <= width,
        s.len() == 4 * width * height,
        rows.0 >= rows.1 >= rows.2,
        triangle_fits(image_fits(width, height), rows, edges, inclusive),
        0 <= k < s.len(),
        k < 4 * width * rows.2 || k >= 4 * width * rows.0,
    ensures
        triangle_painted(s, width, rows, edges, inclusive, shade)[k] == s[k],
{
    lemma_rows_apart(width, rows.2 as int, rows.1 as int);
    lemma_rows_apart(width, rows.1 as int, rows.0 as int);
    let lower = rows_painted(
        s,
        width,
        rows.2 as int,
        rows.1 as int,
        half_edges(edges, Half::Lower),
        inclusive,
        shade,
    );
    lemma_rows_keep(
        s,
        width,
        height,
        rows.2 as int,
        rows.1 as int,
        half_edges(edges, Half::Lower),
        inclusive,
        shade,
        k,
    );
    lemma_rows_keep(
        lower,
        width,
        height,
        rows.1 as int,
        rows.0 as int,
        half_edges(edges, Half::Upper),
        inclusive,
        shade,
        k,
    );
}

proof fn lemma_plot_keeps(
    s: Seq<u8>,
    width: int,
    height: int,
    path: Seq<(u32, u32)>,
    c: Color,
    x: int,
    y: int,
    j: int,
)
    requires
        s.len() == 4 * width * height,
        path_fits(image_fits(width, height), path),
        image_fits(width, height)(x, y),
        0 <= j < 4,
        forall|m: int| 0 <= m < path.len() ==> path[m] != (x as u32, y as u32),
    ensures
        plotted(s, width, path, c).len() == s.len(),
        plotted(s, width, path, c)[offset(width, x, y) + j] == s[offset(width, x, y) + j],
    decreases path.len(),
{
    lemma_pixel_in_image(width, height, x, y);
    if path.len() > 0 {
        let rest = path.drop_last();
        let p = path.last();
        assert(forall|m: int| 0 <= m < rest.len() ==> rest[m] == path[m]);
        assert(path_fits(image_fits(width, height), rest)) by {
            assert forall|m: int| 0 <= m < rest.len() implies #[trigger] image_fits(width, height)(
                rest[m].0 as int,
                rest[m].1 as int,
            ) by {
                assert(image_fits(width, height)(path[m].0 as int, path[m].1 as int));
            }
        }
        lemma_plot_keeps(s, width, height, rest, c, x, y, j);
        assert(image_fits(width, height)(path[path.len() - 1].0 as int, path[path.len() - 1].1 as int));
        assert(path[path.len() - 1] != (x as u32, y as u32));
        lemma_pixels_apart(width, x, y, p.0 as int, p.1 as int);
        lemma_painted_keeps(
            plotted(s, width, rest, c),
            width,
            height,
            p.0 as int,
            p.1 as int,
            c,
            offset(width, x, y) + j,
        );
    }
}

/// Drawing a line inside a `width` by `height` image changes only the
/// pixels it draws: every other pixel of the image keeps its four bytes.
pub proof fn law_line_touches_only_its_pixels(
    s: Seq<u8>,
    width: int,
    height: int,
    p1: (u32, u32),
    p2: (u32, u32),
    path: Seq<(u32, u32)>,
    x: u32,
    y: u32,
    j: int,
)
    requires
        s.len() == 4 * width * height,
        line_inside(width, height, p1, p2, path),
        x < width,
        y < height,
        (x, y) != p1,
        (x, y) != p2,
        forall|m: int| 0 <= m < path.len() ==> path[m] != (x, y),
        0 <= j < 4,
    ensures
        line_drawn(s, width, p1, p2, path)[offset(width, x as int, y as int) + j] == s[offset(
            width,
            x as int,
            y as int,
        ) + j],
{
    let k = offset(width, x as int, y as int) + j;
    lemma_pixel_in_image(width, height, x as int, y as int);
    lemma_pixels_apart(width, x as int, y as int, p1.0 as int, p1.1 as int);
    lemma_pixels_apart(width, x as int, y as int, p2.0 as int, p2.1 as int);
    let s1 = painted(s, width, p1.0 as int, p1.1 as int, crate::color::red());
    lemma_painted_keeps(s, width, height, p1.0 as int, p1.1 as int, crate::color::red(), k);
    let s2 = painted(s1, width, p2.0 as int, p2.1 as int, crate::color::red());
    lemma_painted_keeps(s1, width, height, p2.0 as int, p2.1 as int, crate::color::red(), k);
    lemma_plot_keeps(s2, width, height, path, crate::color::black(), x as int, y as int, j);
}

/// Channel `j` (0 red, 1 green, 2 blue, 3 alpha) of a colour.
pub open spec fn channel(c: Color, j: int) -> u8 {
    if j == 0 {
        c.r
    } else if j == 1 {
        c.g
    } else if j == 2 {
        c.b
    } else {
        c.a
    }
}

/// The four-byte slot that pixel `(x, y)` occupies: `offset` is four times it.
pub open spec fn slot(width: int, x: int, y: int) -> int {
    x + width * y
}

/// Pixel `(x, y)` lies wholly inside a buffer of `len` bytes.
pub open spec fn within(len: int, width: int, x: int, y: int) -> bool {
    0 <= offset(width, x, y) && offset(width, x, y) + 3 < len
}

/// Some pixel of `path` occupies slot `q`.
pub open spec fn path_hits(width: int, path: Seq<(u32, u32)>, q: int) -> bool {
    exists|m: int| #![trigger path[m]] 0 <= m < path.len() && slot(width, path[m].0 as int, path[m].1 as int) == q
}

proof fn lemma_byte_split(k: int)
    requires
        0 <= k,
    ensures
        k == 4 * (k / 4) + k % 4,
        0 <= k % 4 < 4,
        0 <= k / 4,
{
}

proof fn lemma_painted_byte(s: Seq<u8>, width: int, x: int, y: int, c: Color, k: int)
    requires
        within(s.len() as int, width, x, y),
        0 <= k < s.len(),
    ensures
        painted(s, width, x, y, c).len() == s.len(),
        painted(s, width, x, y, c)[k] == if slot(width, x, y) == k / 4 {
            channel(c, k % 4)
        } else {
            s[k]
        },
{
    assert(offset(width, x, y) == 4 * slot(width, x, y)) by (nonlinear_arith);
    lemma_byte_split(k);
}

proof fn lemma_plotted_byte(s: Seq<u8>, width: int, path: Seq<(u32, u32)>, c: Color, k: int)
    requires
        forall|m: int| #![trigger path[m]] 0 <= m < path.len() ==> within(s.len() as int, width, path[m].0 as int, path[m].1 as int),
        0 <= k < s.len(),
    ensures
        plotted(s, width, path, c).len() == s.len(),
        plotted(s, width, path, c)[k] == if path_hits(width, path, k / 4) {
            channel(c, k % 4)
        } else {
            s[k]
        },
    decreases path.len(),
{
    if path.len() > 0 {
        let rest = path.drop_last();
        let p = path.last();
        assert forall|m: int| #![trigger rest[m]] 0 <= m < rest.len() implies within(
            s.len() as int,
            width,
            rest[m].0 as int,
            rest[m].1 as int,
        ) by {
            assert(rest[m] == path[m]);
        }
        lemma_plotted_byte(s, width, rest, c, k);
        assert(path[path.len() - 1] == p);
        lemma_painted_byte(plotted(s, width, rest, c), width, p.0 as int, p.1 as int, c, k);
        if path_hits(width, path, k / 4) {
            let m = choose|m: int| #![trigger path[m]] 0 <= m < path.len() && slot(width, path[m].0 as int, path[m].1 as int) == k / 4;
            if m < path.len() - 1 {
                assert(rest[m] == path[m]);
            }
        }
        if path_hits(width, rest, k / 4) {
            let m = choose|m: int| #![trigger rest[m]] 0 <= m < rest.len() && slot(width, rest[m].0 as int, rest[m].1 as int) == k / 4;
            assert(rest[m] == path[m]);
        }
    }
}

proof fn lemma_raw_line_byte(s: Seq<u8>, width: int, p1: (u32, u32), p2: (u32, u32), path: Seq<(u32, u32)>, k: int)
    requires
        0 <= width,
        raw_line_fits(s.len() as int, width, p1, p2, path),
        0 <= k < s.len(),
    ensures
        raw_line_drawn(s, width, p1, p2, path).len() == s.len(),
        raw_line_drawn(s, width, p1, p2, path)[k] == if path_hits(width, path, k / 4) {
            channel(crate::color::black(), k % 4)
        } else if slot(width, p2.0 as int, p1.1 as int) == k / 4 || slot(width, p1.0 as int, p1.1 as int) == k / 4 {
            channel(crate::color::red(), k % 4)
        } else {
            s[k]
        },
{
    lemma_writable_within(s.len() as int, width, p1.0 as int, p1.1 as int);
    lemma_writable_within(s.len() as int, width, p2.0 as int, p1.1 as int);
    let s1 = painted(s, width, p1.0 as int, p1.1 as int, crate::color::red());
    lemma_painted_byte(s, width, p1.0 as int, p1.1 as int, crate::color::red(), k);
    let s2 = painted(s1, width, p2.0 as int, p1.1 as int, crate::color::red());
    lemma_painted_byte(s1, width, p2.0 as int, p1.1 as int, crate::color::red(), k);
    assert forall|m: int| #![trigger path[m]] 0 <= m < path.len() implies within(
        s2.len() as int,
        width,
        path[m].0 as int,
        path[m].1 as int,
    ) by {
        assert(buffer_fits(s.len() as int, width)(path[m].0 as int, path[m].1 as int));
        lemma_writable_within(s.len() as int, width, path[m].0 as int, path[m].1 as int);
    }
    lemma_plotted_byte(s2, width, path, crate::color::black(), k);
}

proof fn lemma_writable_within(len: int, width: int, x: int, y: int)
    requires
        0 <= width,
        0 <= x,
        0 <= y,
        writable(len, width, x, y),
    ensures
        within(len, width, x, y),
{
    assert(0 <= width * y) by (nonlinear_arith)
        requires
            0 <= width,
            0 <= y,
    ;
}

proof fn lemma_inside_within(width: int, height: int, x: int, y: int)
    requires
        image_fits(width, height)(x, y),
    ensures
        within(4 * width * height, width, x, y),
{
    lemma_pixel_in_image(width, height, x, y);
}

/// Drawing the same raw line twice changes nothing more than drawing it once
/// (and the buffer keeps its length, so the second drawing fits as the first did).
pub proof fn law_raw_line_twice(s: Seq<u8>, width: int, p1: (u32, u32), p2: (u32, u32), path: Seq<(u32, u32)>)
    requires
        0 <= width,
        raw_line_fits(s.len() as int, width, p1, p2, path),
    ensures
        raw_line_drawn(s, width, p1, p2, path).len() == s.len(),
        raw_line_drawn(raw_line_drawn(s, width, p1, p2, path), width, p1, p2, path) == raw_line_drawn(
            s,
            width,
            p1,
            p2,
            path,
        ),
{
    let t = raw_line_drawn(s, width, p1, p2, path);
    lemma_raw_line_byte(s, width, p1, p2, path, 0);
    assert forall|k: int| 0 <= k < t.len() implies #[trigger] raw_line_drawn(t, width, p1, p2, path)[k] == t[k] by {
        lemma_raw_line_byte(s, width, p1, p2, path, k);
        lemma_raw_line_byte(t, width, p1, p2, path, k);
    }
    lemma_raw_line_byte(t, width, p1, p2, path, 0);
    assert(raw_line_drawn(t, width, p1, p2, path) =~= t);
}

proof fn lemma_line_byte(s: Seq<u8>, width: int, height: int, p1: (u32, u32), p2: (u32, u32), path: Seq<(u32, u32)>, k: int)
    requires
        s.len() == 4 * width * height,
        line_inside(width, height, p1, p2, path),
        0 <= k < s.len(),
    ensures
        line_drawn(s, width, p1, p2, path).len() == s.len(),
        line_drawn(s, width, p1, p2, path)[k] == if path_hits(width, path, k / 4) {
            channel(crate::color::black(), k % 4)
        } else if slot(width, p2.0 as int, p2.1 as int) == k / 4 || slot(width, p1.0 as int, p1.1 as int) == k / 4 {
            channel(crate::color::red(), k % 4)
        } else {
            s[k]
        },
{
    lemma_inside_within(width, height, p1.0 as int, p1.1 as int);
    lemma_inside_within(width, height, p2.0 as int, p2.1 as int);
    let s1 = painted(s, width, p1.0 as int, p1.1 as int, crate::color::red());
    lemma_painted_byte(s, width, p1.0 as int, p1.1 as int, crate::color::red(), k);
    let s2 = painted(s1, width, p2.0 as int, p2.1 as int, crate::color::red());
    lemma_painted_byte(s1, width, p2.0 as int, p2.1 as int, crate::color::red(), k);
    assert forall|m: int| #![trigger path[m]] 0 <= m < path.len() implies within(
        s2.len() as int,
        width,
        path[m].0 as int,
        path[m].1 as int,
    ) by {
        assert(image_fits(width, height)(path[m].0 as int, path[m].1 as int));
        lemma_inside_within(width, height, path[m].0 as int, path[m].1 as int);
    }
    lemma_plotted_byte(s2, width, path, crate::color::black(), k);
}

/// Drawing the same line into an image twice changes nothing more than
/// drawing it once.
pub proof fn law_line_twice(s: Seq<u8>, width: int, height: int, p1: (u32, u32), p2: (u32, u32), path: Seq<(u32, u32)>)
    requires
        s.len() == 4 * width * height,
        line_inside(width, height, p1, p2, path),
    ensures
        line_drawn(s, width, p1, p2, path).len() == s.len(),
        line_drawn(line_drawn(s, width, p1, p2, path), width, p1, p2, path) == line_drawn(
            s,
            width,
            p1,
            p2,
            path,
        ),
{
    let t = line_drawn(s, width, p1, p2, path);
    lemma_inside_within(width, height, p1.0 as int, p1.1 as int);
    lemma_line_byte(s, width, height, p1, p2, path, 0);
    assert(t.len() == s.len());
    assert forall|k: int| 0 <= k < t.len() implies #[trigger] line_drawn(t, width, p1, p2, path)[k] == t[k] by {
        lemma_line_byte(s, width, height, p1, p2, path, k);
        lemma_line_byte(t, width, height, p1, p2, path, k);
    }
    lemma_line_byte(t, width, height, p1, p2, path, 0);
    assert(line_drawn(t, width, p1, p2, path) =~= t);
}

/// The crossings of row `y` of the triangle with ordered corner rows `rows`:
/// those of the lower half below `rows.1`, those of the upper half from it on.
pub open spec fn crossings_at<E: Fn(Half, u32) -> (u32, u32)>(edges: E, rows: (u32, u32, u32), y: int) -> (u32, u32) {
    if y < rows.1 {
        edge_at(edges, Half::Lower, y)
    } else {
        edge_at(edges, Half::Upper, y)
    }
}

/// Pixel `(x, y)` is filled by a triangle with ordered corner rows `rows`:
/// its row lies in `rows.2 <= y < rows.0` and `x` lies strictly between the
/// row's two crossings, or on the larger one when the right crossing is
/// filled (`inclusive`).
pub open spec fn fill_covers<E: Fn(Half, u32) -> (u32, u32)>(
    rows: (u32, u32, u32),
    edges: E,
    inclusive: bool,
    x: int,
    y: int,
) -> bool {
    let e = crossings_at(edges, rows, y);
    let lo: int = if e.0 < e.1 {
        e.0 as int
    } else {
        e.1 as int
    };
    let hi: int = if e.0 < e.1 {
        e.1 as int
    } else {
        e.0 as int
    };
    &&& rows.2 <= y < rows.0
    &&& lo < x
    &&& (x < hi || (inclusive && x == hi))
}

/// Pixel `(x, y)` is the right crossing of its row, and that row's two
/// crossings differ.
pub open spec fn right_crossing<E: Fn(Half, u32) -> (u32, u32)>(rows: (u32, u32, u32), edges: E, x: int, y: int) -> bool {
    let e = crossings_at(edges, rows, y);
    &&& rows.2 <= y < rows.0
    &&& e.0 != e.1
    &&& x == (if e.0 < e.1 {
        e.1
    } else {
        e.0
    })
}

proof fn lemma_span_pixel(
    s: Seq<u8>,
    width: int,
    height: int,
    y0: int,
    from: int,
    to: int,
    shade: spec_fn(int) -> Color,
    x: int,
    y: int,
    j: int,
)
    requires
        s.len() == 4 * width * height,
        span_fits(image_fits(width, height), y0, from, to),
        image_fits(width, height)(x, y),
        0 <= j < 4,
    ensures
        span_painted(s, width, y0, from, to, shade).len() == s.len(),
        span_painted(s, width, y0, from, to, shade)[offset(width, x, y) + j] == if y == y0 && from <= x
            < to {
            channel(shade(x), j)
        } else {
            s[offset(width, x, y) + j]
        },
    decreases to - from,
{
    lemma_pixel_in_image(width, height, x, y);
    if to > from {
        lemma_span_pixel(s, width, height, y0, from, to - 1, shade, x, y, j);
        let prev = span_painted(s, width, y0, from, to - 1, shade);
        assert(image_fits(width, height)(to - 1, y0));
        lemma_pixel_in_image(width, height, to - 1, y0);
        if (x, y) != (to - 1, y0) {
            lemma_pixels_apart(width, x, y, to - 1, y0);
            lemma_painted_keeps(prev, width, height, to - 1, y0, shade(to - 1), offset(width, x, y) + j);
        }
    }
}

proof fn lemma_rows_pixel(
    s: Seq<u8>,
    width: int,
    height: int,
    lo: int,
    hi: int,
    edge: spec_fn(int) -> (u32, u32),
    inclusive: bool,
    shade: spec_fn(int, int) -> Color,
    x: int,
    y: int,
    j: int,
)
    requires
        s.len() == 4 * width * height,
        rows_fit(image_fits(width, height), lo, hi, edge, inclusive),
        image_fits(width, height)(x, y),
        0 <= j < 4,
    ensures
        rows_painted(s, width, lo, hi, edge, inclusive, shade).len() == s.len(),
        rows_painted(s, width, lo, hi, edge, inclusive, shade)[offset(width, x, y) + j] == if lo <= y
            < hi && span_start(edge(y)) <= x < span_end(edge(y), inclusive) {
            channel(shade(x, y), j)
        } else {
            s[offset(width, x, y) + j]
        },
    decreases hi - lo,
{
    if hi > lo {
        let y0 = hi - 1;
        lemma_rows_pixel(s, width, height, lo, y0, edge, inclusive, shade, x, y, j);
        assert(row_fits(image_fits(width, height), y0, edge(y0), inclusive));
        lemma_span_pixel(
            rows_painted(s, width, lo, y0, edge, inclusive, shade),
            width,
            height,
            y0,
            span_start(edge(y0)),
            span_end(edge(y0), inclusive),
            |x: int| shade(x, y0),
            x,
            y,
            j,
        );
    }
}

/// Filling a triangle that lies inside a `width` by `height` image, its
/// corner rows ordered `rows.0 >= rows.1 >= rows.2`, sets every pixel it
/// covers (`fill_covers`) to the colour `shade` gives that pixel, and keeps
/// every other pixel as it was.
pub proof fn law_triangle_fill_pixels<E: Fn(Half, u32) -> (u32, u32)>(
    s: Seq<u8>,
    width: int,
    height: int,
    rows: (u32, u32, u32),
    edges: E,
    inclusive: bool,
    shade: spec_fn(int, int) -> Color,
    x: int,
    y: int,
    j: int,
)
    requires
        s.len() == 4 * width * height,
        rows.0 >= rows.1 >= rows.2,
        triangle_fits(image_fits(width, height), rows, edges, inclusive),
        image_fits(width, height)(x, y),
        0 <= j < 4,
    ensures
        triangle_painted(s, width, rows, edges, inclusive, shade).len() == s.len(),
        triangle_painted(s, width, rows, edges, inclusive, shade)[offset(width, x, y) + j] == if fill_covers(
            rows,
            edges,
            inclusive,
            x,
            y,
        ) {
            channel(shade(x, y), j)
        } else {
            s[offset(width, x, y) + j]
        },
{
    let lower = rows_painted(
        s,
        width,
        rows.2 as int,
        rows.1 as int,
        half_edges(edges, Half::Lower),
        inclusive,
        shade,
    );
    lemma_rows_pixel(
        s,
        width,
        height,
        rows.2 as int,
        rows.1 as int,
        half_edges(edges, Half::Lower),
        inclusive,
        shade,
        x,
        y,
        j,
    );
    lemma_rows_pixel(
        lower,
        width,
        height,
        rows.1 as int,
        rows.0 as int,
        half_edges(edges, Half::Upper),
        inclusive,
        shade,
        x,
        y,
        j,
    );
}

/// Every byte of a packed `width` by `height` image belongs to one of its pixels.
proof fn lemma_byte_in_pixel(width: int, height: int, k: int) -> (p: (int, int, int))
    requires
        0 <= k < 4 * width * height,
        0 <= width,
        0 <= height,
    ensures
        image_fits(width, height)(p.0, p.1),
        0 <= p.2 < 4,
        k == offset(width, p.0, p.1) + p.2,
{
    let q = k / 4;
    let j = k % 4;
    lemma_byte_split(k);
    assert(q < width * height) by (nonlinear_arith)
        requires
            k == 4 * q + j,
            0 <= j,
            k < 4 * width * height,
    ;
    assert(width > 0) by (nonlinear_arith)
        requires
            0 <= k < 4 * width * height,
            0 <= width,
            0 <= height,
    ;
    vstd::arithmetic::div_mod::lemma_fundamental_div_mod(q, width);
    vstd::arithmetic::div_mod::lemma_mod_pos_bound(q, width);
    vstd::arithmetic::div_mod::lemma_div_pos_is_pos(q, width);
    let y = q / width;
    let x = q % width;
    assert(y < height) by (nonlinear_arith)
        requires
            q == width * y + x,
            0 <= x,
            q < width * height,
            0 < width,
    ;
    assert(offset(width, x, y) == 4 * q) by (nonlinear_arith)
        requires
            q == width * y + x,
    ;
    (x, y, j)
}

/// Filling the same triangle into an image twice changes nothing more than
/// filling it once.
pub proof fn law_triangle_fill_twice<E: Fn(Half, u32) -> (u32, u32)>(
    s: Seq<u8>,
    width: int,
    height: int,
    rows: (u32, u32, u32),
    edges: E,
    inclusive: bool,
    shade: spec_fn(int, int) -> Color,
)
    requires
        0 <= width,
        0 <= height,
        s.len() == 4 * width * height,
        rows.0 >= rows.1 >= rows.2,
        triangle_fits(image_fits(width, height), rows, edges, inclusive),
    ensures
        triangle_painted(s, width, rows, edges, inclusive, shade).len() == s.len(),
        triangle_painted(triangle_painted(s, width, rows, edges, inclusive, shade), width, rows, edges, inclusive, shade)
            == triangle_painted(s, width, rows, edges, inclusive, shade),
{
    let t = triangle_painted(s, width, rows, edges, inclusive, shade);
    lemma_triangle_len(s, width, height, rows, edges, inclusive, shade);
    assert forall|k: int| 0 <= k < t.len() implies #[trigger] triangle_painted(
        t,
        width,
        rows,
        edges,
        inclusive,
        shade,
    )[k] == t[k] by {
        let p = lemma_byte_in_pixel(width, height, k);
        law_triangle_fill_pixels(s, width, height, rows, edges, inclusive, shade, p.0, p.1, p.2);
        law_triangle_fill_pixels(t, width, height, rows, edges, inclusive, shade, p.0, p.1, p.2);
    }
    lemma_triangle_len(t, width, height, rows, edges, inclusive, shade);
    assert(triangle_painted(t, width, rows, edges, inclusive, shade) =~= t);
}

proof fn lemma_span_len(
    s: Seq<u8>,
    width: int,
    height: int,
    y: int,
    from: int,
    to: int,
    shade: spec_fn(int) -> Color,
)
    requires
        s.len() == 4 * width * height,
        span_fits(image_fits(width, height), y, from, to),
    ensures
        span_painted(s, width, y, from, to, shade).len() == s.len(),
    decreases to - from,
{
    if to > from {
        lemma_span_len(s, width, height, y, from, to - 1, shade);
        assert(image_fits(width, height)(to - 1, y));
        lemma_pixel_in_image(width, height, to - 1, y);
    }
}

proof fn lemma_rows_len(
    s: Seq<u8>,
    width: int,
    height: int,
    lo: int,
    hi: int,
    edge: spec_fn(int) -> (u32, u32),
    inclusive: bool,
    shade: spec_fn(int, int) -> Color,
)
    requires
        s.len() == 4 * width * height,
        rows_fit(image_fits(width, height), lo, hi, edge, inclusive),
    ensures
        rows_painted(s, width, lo, hi, edge, inclusive, shade).len() == s.len(),
    decreases hi - lo,
{
    if hi > lo {
        let y = hi - 1;
        lemma_rows_len(s, width, height, lo, y, edge, inclusive, shade);
        assert(row_fits(image_fits(width, height), y, edge(y), inclusive));
        lemma_span_len(
            rows_painted(s, width, lo, y, edge, inclusive, shade),
            width,
            height,
            y,
            span_start(edge(y)),
            span_end(edge(y), inclusive),
            |x: int| shade(x, y),
        );
    }
}

proof fn lemma_triangle_len<E: Fn(Half, u32) -> (u32, u32)>(
    s: Seq<u8>,
    width: int,
    height: int,
    rows: (u32, u32, u32),
    edges: E,
    inclusive: bool,
    shade: spec_fn(int, int) -> Color,
)
    requires
        s.len() == 4 * width * height,
        triangle_fits(image_fits(width, height), rows, edges, inclusive),
    ensures
        triangle_painted(s, width, rows, edges, inclusive, shade).len() == s.len(),
{
    lemma_rows_len(s, width, height, rows.2 as int, rows.1 as int, half_edges(edges, Half::Lower), inclusive, shade);
    let lower = rows_painted(s, width, rows.2 as int, rows.1 as int, half_edges(edges, Half::Lower), inclusive, shade);
    lemma_rows_len(lower, width, height, rows.1 as int, rows.0 as int, half_edges(edges, Half::Upper), inclusive, shade);
}

proof fn lemma_rows_fit_narrower(
    fits: spec_fn(int, int) -> bool,
    lo: int,
    hi: int,
    edge: spec_fn(int) -> (u32, u32),
)
    requires
        rows_fit(fits, lo, hi, edge, true),
    ensures
        rows_fit(fits, lo, hi, edge, false),
{
    assert forall|y: int| lo <= y < hi implies #[trigger] row_fits(fits, y, edge(y), false) by {
        assert(row_fits(fits, y, edge(y), true));
        assert forall|x: int|
            span_start(edge(y)) <= x < span_end(edge(y), false) implies #[trigger] fits(x, y) by {
            assert(span_start(edge(y)) <= x < span_end(edge(y), true));
        }
    }
}

/// The gradient fill covers exactly the pixels the flat fill covers plus the
/// right crossing of every row whose two crossings differ: the flat fill
/// leaves out both crossings of a row, the gradient fill only the left one.
/// Filling the same triangle, with the same crossings, into the same image
/// bytes, the gradient fill gives each covered pixel the opaque colour of
/// `shade` and the flat fill gives it green; both keep every other pixel.
pub proof fn law_gradient_adds_right_crossings<E: Fn(Half, u32) -> (u32, u32), S: Fn(u32, u32) -> (u8, u8, u8)>(
    s: Seq<u8>,
    width: int,
    height: int,
    rows: (u32, u32, u32),
    edges: E,
    shade: S,
    x: int,
    y: int,
    j: int,
)
    requires
        s.len() == 4 * width * height,
        rows.0 >= rows.1 >= rows.2,
        triangle_fits(image_fits(width, height), rows, edges, true),
        image_fits(width, height)(x, y),
        0 <= j < 4,
    ensures
        triangle_fits(image_fits(width, height), rows, edges, false),
        fill_covers(rows, edges, true, x, y) <==> (fill_covers(rows, edges, false, x, y) || right_crossing(
            rows,
            edges,
            x,
            y,
        )),
        triangle_painted(s, width, rows, edges, true, shading(shade))[offset(width, x, y) + j] == if fill_covers(
            rows,
            edges,
            true,
            x,
            y,
        ) {
            channel(opaque(shade_at(shade, x, y)), j)
        } else {
            s[offset(width, x, y) + j]
        },
        triangle_painted(s, width, rows, edges, false, flat(green()))[offset(width, x, y) + j] == if fill_covers(
            rows,
            edges,
            false,
            x,
            y,
        ) {
            channel(green(), j)
        } else {
            s[offset(width, x, y) + j]
        },
{
    let fits = image_fits(width, height);
    lemma_rows_fit_narrower(fits, rows.2 as int, rows.1 as int, half_edges(edges, Half::Lower));
    lemma_rows_fit_narrower(fits, rows.1 as int, rows.0 as int, half_edges(edges, Half::Upper));
    law_triangle_fill_pixels(s, width, height, rows, edges, true, shading(shade), x, y, j);
    law_triangle_fill_pixels(s, width, height, rows, edges, false, flat(green()), x, y, j);
}

/// A triangle that lies inside a `width` by `height` image whose
/// `4 * width * height` bytes all have `u32` offsets also fits the image's
/// packed byte buffer. So the raw fill of the image's bytes
/// (`paint_triangle_raw`) succeeds wherever the image fill (`paint_triangle`)
/// does, and the two contracts then give the same bytes: `triangle_painted`
/// of the bytes they start from.
pub proof fn law_raw_fill_fits_where_image_fill_fits<E: Fn(Half, u32) -> (u32, u32)>(
    width: int,
    height: int,
    rows: (u32, u32, u32),
    edges: E,
    inclusive: bool,
)
    requires
        4 * width * height <= u32::MAX + 1,
        triangle_fits(image_fits(width, height), rows, edges, inclusive),
    ensures
        triangle_fits(buffer_fits(4 * width * height, width), rows, edges, inclusive),
{
    let len = 4 * width * height;
    assert forall|h: Half, lo: int, hi: int|
        rows_fit(image_fits(width, height), lo, hi, half_edges(edges, h), inclusive) implies rows_fit(
        #[trigger] buffer_fits(len, width),
        lo,
        hi,
        half_edges(edges, h),
        inclusive,
    ) by {
        let edge = half_edges(edges, h);
        assert forall|y: int| lo <= y < hi implies #[trigger] row_fits(buffer_fits(len, width), y, edge(y), inclusive) by {
            assert(row_fits(image_fits(width, height), y, edge(y), inclusive));
            assert forall|x: int|
                span_start(edge(y)) <= x < span_end(edge(y), inclusive) implies #[trigger] buffer_fits(
                len,
                width,
            )(x, y) by {
                assert(image_fits(width, height)(x, y));
                lemma_pixel_in_image(width, height, x, y);
            }
        }
    }
}

/// Row `y` of `half` belongs to the triangle with ordered corner rows `rows`:
/// the lower half spans rows `rows.2 <= y < rows.1`, the upper half rows
/// `rows.1 <= y < rows.0`.
pub open spec fn in_half(rows: (u32, u32, u32), half: Half, y: int) -> bool {
    match half {
        Half::Lower => rows.2 <= y < rows.1,
        Half::Upper => rows.1 <= y < rows.0,
    }
}

/// A triangle fill succeeds exactly when, on every row of each half, with
/// crossings `a` and `b` from `edges`, the column one right of the smaller
/// crossing is computable in `u32` (`a < b`, or `b` is not `u32::MAX`), and
/// every pixel strictly between the two crossings passes `fits`, the larger
/// crossing too when the right crossing is filled (`inclusive`). A row whose
/// two crossings are equal has no pixel to fill and never makes it fail.
pub proof fn law_fill_fits_exactly_when_its_pixels_fit<E: Fn(Half, u32) -> (u32, u32)>(
    fits: spec_fn(int, int) -> bool,
    rows: (u32, u32, u32),
    edges: E,
    inclusive: bool,
)
    ensures
        triangle_fits(fits, rows, edges, inclusive) <==> (forall|h: Half, y: int|
            #![trigger edge_at(edges, h, y)]
            in_half(rows, h, y) ==> {
                let a = edge_at(edges, h, y).0;
                let b = edge_at(edges, h, y).1;
                let lo: int = if a < b {
                    a as int
                } else {
                    b as int
                };
                let hi: int = if a < b {
                    b as int
                } else {
                    a as int
                };
                &&& (a < b || b < u32::MAX)
                &&& forall|x: int| lo < x && (x < hi || (inclusive && x == hi)) ==> #[trigger] fits(x, y)
            }),
{
    let lower = half_edges(edges, Half::Lower);
    let upper = half_edges(edges, Half::Upper);
    let pixels_fit = forall|h: Half, y: int|
        #![trigger edge_at(edges, h, y)]
        in_half(rows, h, y) ==> {
            let a = edge_at(edges, h, y).0;
            let b = edge_at(edges, h, y).1;
            let lo: int = if a < b {
                a as int
            } else {
                b as int
            };
            let hi: int = if a < b {
                b as int
            } else {
                a as int
            };
            &&& (a < b || b < u32::MAX)
            &&& forall|x: int| lo < x && (x < hi || (inclusive && x == hi)) ==> #[trigger] fits(x, y)
        };
    if triangle_fits(fits, rows, edges, inclusive) {
        assert forall|h: Half, y: int| #![trigger edge_at(edges, h, y)] in_half(rows, h, y) implies {
            let a = edge_at(edges, h, y).0;
            let b = edge_at(edges, h, y).1;
            let lo: int = if a < b {
                a as int
            } else {
                b as int
            };
            let hi: int = if a < b {
                b as int
            } else {
                a as int
            };
            &&& (a < b || b < u32::MAX)
            &&& forall|x: int| lo < x && (x < hi || (inclusive && x == hi)) ==> #[trigger] fits(x, y)
        } by {
            let e = edge_at(edges, h, y);
            match h {
                Half::Lower => {
                    assert(row_fits(fits, y, lower(y), inclusive));
                },
                Half::Upper => {
                    assert(row_fits(fits, y, upper(y), inclusive));
                },
            }
            assert(span_fits(fits, y, span_start(e), span_end(e, inclusive)));
        }
    }
    if pixels_fit {
        assert forall|y: int| rows.2 <= y < rows.1 implies #[trigger] row_fits(fits, y, lower(y), inclusive) by {
            assert(in_half(rows, Half::Lower, y));
            let e = edge_at(edges, Half::Lower, y);
            assert forall|x: int| span_start(e) <= x < span_end(e, inclusive) implies #[trigger] fits(x, y) by {}
        }
        assert forall|y: int| rows.1 <= y < rows.0 implies #[trigger] row_fits(fits, y, upper(y), inclusive) by {
            assert(in_half(rows, Half::Upper, y));
            let e = edge_at(edges, Half::Upper, y);
            assert forall|x: int| span_start(e) <= x < span_end(e, inclusive) implies #[trigger] fits(x, y) by {}
        }
    }
}

/// The four bytes of pixel `(x, y)` in `t` are the channels of `c`.
pub open spec fn pixel_is(t: Seq<u8>, width: int, x: int, y: int, c: Color) -> bool {
    forall|j: int| 0 <= j < 4 ==> #[trigger] t[offset(width, x, y) + j] == channel(c, j)
}

/// Pixel `p` of `t` is black or red: a line has marked it.
pub open spec fn marked(t: Seq<u8>, width: int, p: (u32, u32)) -> bool {
    pixel_is(t, width, p.0 as int, p.1 as int, black()) || pixel_is(t, width, p.0 as int, p.1 as int, red())
}

proof fn lemma_slot_byte(width: int, x: int, y: int, j: int)
    requires
        0 <= offset(width, x, y),
        0 <= j < 4,
    ensures
        (offset(width, x, y) + j) / 4 == slot(width, x, y),
        (offset(width, x, y) + j) % 4 == j,
{
    assert(offset(width, x, y) == 4 * slot(width, x, y)) by (nonlinear_arith);
}

/// A raw line sets every pixel of its path black, and leaves a pixel that was
/// black or red black or red.
proof fn lemma_raw_line_marks(
    t: Seq<u8>,
    width: int,
    p1: (u32, u32),
    p2: (u32, u32),
    path: Seq<(u32, u32)>,
    q: (u32, u32),
)
    requires
        0 <= width,
        raw_line_fits(t.len() as int, width, p1, p2, path),
        within(t.len() as int, width, q.0 as int, q.1 as int),
    ensures
        raw_line_drawn(t, width, p1, p2, path).len() == t.len(),
        path.contains(q) ==> pixel_is(raw_line_drawn(t, width, p1, p2, path), width, q.0 as int, q.1 as int, black()),
        marked(t, width, q) ==> marked(raw_line_drawn(t, width, p1, p2, path), width, q),
{
    let r = raw_line_drawn(t, width, p1, p2, path);
    let (x, y) = (q.0 as int, q.1 as int);
    let o = offset(width, x, y);
    let sq = slot(width, x, y);
    lemma_raw_line_byte(t, width, p1, p2, path, o);
    if path.contains(q) {
        let m = choose|m: int| 0 <= m < path.len() && path[m] == q;
        assert(path[m] == q);
        assert(path_hits(width, path, sq));
    }
    assert forall|j: int| 0 <= j < 4 implies #[trigger] r[o + j] == if path_hits(width, path, sq) {
        channel(black(), j)
    } else if slot(width, p2.0 as int, p1.1 as int) == sq || slot(width, p1.0 as int, p1.1 as int) == sq {
        channel(red(), j)
    } else {
        t[o + j]
    } by {
        lemma_slot_byte(width, x, y, j);
        lemma_raw_line_byte(t, width, p1, p2, path, o + j);
    }
}

proof fn lemma_line_marks(
    t: Seq<u8>,
    width: int,
    height: int,
    p1: (u32, u32),
    p2: (u32, u32),
    path: Seq<(u32, u32)>,
    q: (u32, u32),
)
    requires
        t.len() == 4 * width * height,
        line_inside(width, height, p1, p2, path),
        image_fits(width, height)(q.0 as int, q.1 as int),
    ensures
        line_drawn(t, width, p1, p2, path).len() == t.len(),
        path.contains(q) ==> pixel_is(line_drawn(t, width, p1, p2, path), width, q.0 as int, q.1 as int, black()),
        marked(t, width, q) ==> marked(line_drawn(t, width, p1, p2, path), width, q),
{
    let r = line_drawn(t, width, p1, p2, path);
    let (x, y) = (q.0 as int, q.1 as int);
    lemma_inside_within(width, height, x, y);
    let o = offset(width, x, y);
    let sq = slot(width, x, y);
    lemma_line_byte(t, width, height, p1, p2, path, o);
    if path.contains(q) {
        let m = choose|m: int| 0 <= m < path.len() && path[m] == q;
        assert(path[m] == q);
        assert(path_hits(width, path, sq));
    }
    assert forall|j: int| 0 <= j < 4 implies #[trigger] r[o + j] == if path_hits(width, path, sq) {
        channel(black(), j)
    } else if slot(width, p2.0 as int, p2.1 as int) == sq || slot(width, p1.0 as int, p1.1 as int) == sq {
        channel(red(), j)
    } else {
        t[o + j]
    } by {
        lemma_slot_byte(width, x, y, j);
        lemma_line_byte(t, width, height, p1, p2, path, o + j);
    }
}

/// After the three sides of a triangle are drawn as raw lines (`ab`, then
/// `ac`, then `bc`), every pixel of each side's path is black or red (a later
/// side may mark it red), and every pixel of the last side's path is black.
pub proof fn law_raw_outline_drawn<V: Corner>(s: Seq<u8>, width: int, points: (V, V, V), outline: Outline)
    requires
        0 <= width,
        raw_outline_fits(s.len() as int, width, points, outline),
    ensures
        raw_outlined(s, width, points, outline).len() == s.len(),
        forall|m: int| 0 <= m < outline.ab@.len() ==> marked(raw_outlined(s, width, points, outline), width, #[trigger] outline.ab@[m]),
        forall|m: int| 0 <= m < outline.ac@.len() ==> marked(raw_outlined(s, width, points, outline), width, #[trigger] outline.ac@[m]),
        forall|m: int| 0 <= m < outline.bc@.len() ==> pixel_is(
            raw_outlined(s, width, points, outline),
            width,
            outline.bc@[m].0 as int,
            outline.bc@[m].1 as int,
            black(),
        ),
{
    let (a, b, c) = (spot(points.0), spot(points.1), spot(points.2));
    let s1 = raw_line_drawn(s, width, a, b, outline.ab@);
    let s2 = raw_line_drawn(s1, width, a, c, outline.ac@);
    let s3 = raw_line_drawn(s2, width, b, c, outline.bc@);
    lemma_raw_line_byte(s, width, a, b, outline.ab@, 0);
    lemma_raw_line_byte(s1, width, a, c, outline.ac@, 0);
    lemma_raw_line_byte(s2, width, b, c, outline.bc@, 0);
    assert forall|m: int| 0 <= m < outline.ab@.len() implies marked(s3, width, #[trigger] outline.ab@[m]) by {
        let q = outline.ab@[m];
        assert(buffer_fits(s.len() as int, width)(q.0 as int, q.1 as int));
        lemma_writable_within(s.len() as int, width, q.0 as int, q.1 as int);
        assert(outline.ab@.contains(q));
        lemma_raw_line_marks(s, width, a, b, outline.ab@, q);
        lemma_raw_line_marks(s1, width, a, c, outline.ac@, q);
        lemma_raw_line_marks(s2, width, b, c, outline.bc@, q);
    }
    assert forall|m: int| 0 <= m < outline.ac@.len() implies marked(s3, width, #[trigger] outline.ac@[m]) by {
        let q = outline.ac@[m];
        assert(buffer_fits(s.len() as int, width)(q.0 as int, q.1 as int));
        lemma_writable_within(s.len() as int, width, q.0 as int, q.1 as int);
        assert(outline.ac@.contains(q));
        lemma_raw_line_marks(s1, width, a, c, outline.ac@, q);
        lemma_raw_line_marks(s2, width, b, c, outline.bc@, q);
    }
    assert forall|m: int| 0 <= m < outline.bc@.len() implies pixel_is(
        s3,
        width,
        outline.bc@[m].0 as int,
        outline.bc@[m].1 as int,
        black(),
    ) by {
        let q = outline.bc@[m];
        assert(buffer_fits(s.len() as int, width)(q.0 as int, q.1 as int));
        lemma_writable_within(s.len() as int, width, q.0 as int, q.1 as int);
        assert(outline.bc@.contains(q));
        lemma_raw_line_marks(s2, width, b, c, outline.bc@, q);
    }
}

/// After the three sides of a triangle are drawn into an image (`ab`, then
/// `ac`, then `bc`), every pixel of each side's path is black or red (a later
/// side may mark it red), and every pixel of the last side's path is black.
pub proof fn law_outline_drawn(
    s: Seq<u8>,
    width: int,
    height: int,
    points: ((u32, u32), (u32, u32), (u32, u32)),
    outline: Outline,
)
    requires
        s.len() == 4 * width * height,
        outline_inside(width, height, points, outline),
    ensures
        outlined(s, width, points, outline).len() == s.len(),
        forall|m: int| 0 <= m < outline.ab@.len() ==> marked(outlined(s, width, points, outline), width, #[trigger] outline.ab@[m]),
        forall|m: int| 0 <= m < outline.ac@.len() ==> marked(outlined(s, width, points, outline), width, #[trigger] outline.ac@[m]),
        forall|m: int| 0 <= m < outline.bc@.len() ==> pixel_is(
            outlined(s, width, points, outline),
            width,
            outline.bc@[m].0 as int,
            outline.bc@[m].1 as int,
            black(),
        ),
{
    let (a, b, c) = points;
    let s1 = line_drawn(s, width, a, b, outline.ab@);
    let s2 = line_drawn(s1, width, a, c, outline.ac@);
    let s3 = line_drawn(s2, width, b, c, outline.bc@);
    lemma_inside_within(width, height, a.0 as int, a.1 as int);
    lemma_line_byte(s, width, height, a, b, outline.ab@, 0);
    lemma_line_byte(s1, width, height, a, c, outline.ac@, 0);
    lemma_line_byte(s2, width, height, b, c, outline.bc@, 0);
    assert forall|m: int| 0 <= m < outline.ab@.len() implies marked(s3, width, #[trigger] outline.ab@[m]) by {
        let q = outline.ab@[m];
        assert(image_fits(width, height)(q.0 as int, q.1 as int));
        assert(outline.ab@.contains(q));
        lemma_line_marks(s, width, height, a, b, outline.ab@, q);
        lemma_line_marks(s1, width, height, a, c, outline.ac@, q);
        lemma_line_marks(s2, width, height, b, c, outline.bc@, q);
    }
    assert forall|m: int| 0 <= m < outline.ac@.len() implies marked(s3, width, #[trigger] outline.ac@[m]) by {
        let q = outline.ac@[m];
        assert(image_fits(width, height)(q.0 as int, q.1 as int));
        assert(outline.ac@.contains(q));
        lemma_line_marks(s1, width, height, a, c, outline.ac@, q);
        lemma_line_marks(s2, width, height, b, c, outline.bc@, q);
    }
    assert forall|m: int| 0 <= m < outline.bc@.len() implies pixel_is(
        s3,
        width,
        outline.bc@[m].0 as int,
        outline.bc@[m].1 as int,
        black(),
    ) by {
        let q = outline.bc@[m];
        assert(image_fits(width, height)(q.0 as int, q.1 as int));
        assert(outline.bc@.contains(q));
        lemma_line_marks(s2, width, height, b, c, outline.bc@, q);
    }
}

/// Some pixel of `path` above row `height` occupies slot `q`.
pub open spec fn visible_hits(width: int, height: int, path: Seq<(u32, u32)>, q: int) -> bool {
    exists|m: int|
        #![trigger path[m]]
        0 <= m < path.len() && path[m].1 < height && slot(width, path[m].0 as int, path[m].1 as int) == q
}

proof fn lemma_visible_byte(s: Seq<u8>, width: int, height: int, path: Seq<(u32, u32)>, c: Color, k: int)
    requires
        s.len() == 4 * width * height,
        visible_fits(width, height, path),
        0 <= k < s.len(),
    ensures
        plotted_visible(s, width, height, path, c).len() == s.len(),
        plotted_visible(s, width, height, path, c)[k] == if visible_hits(width, height, path, k / 4) {
            channel(c, k % 4)
        } else {
            s[k]
        },
    decreases path.len(),
{
    if path.len() > 0 {
        let rest = path.drop_last();
        let p = path.last();
        assert forall|m: int| 0 <= m < rest.len() && rest[m].1 < height implies #[trigger] rest[m].0 < width by {
            assert(rest[m] == path[m]);
        }
        lemma_visible_byte(s, width, height, rest, c, k);
        assert(path[path.len() - 1] == p);
        let before = plotted_visible(s, width, height, rest, c);
        if p.1 < height {
            assert(p.0 < width);
            lemma_inside_within(width, height, p.0 as int, p.1 as int);
            lemma_painted_byte(before, width, p.0 as int, p.1 as int, c, k);
        }
        if visible_hits(width, height, path, k / 4) {
            let m = choose|m: int|
                #![trigger path[m]]
                0 <= m < path.len() && path[m].1 < height && slot(width, path[m].0 as int, path[m].1 as int) == k / 4;
            if m < path.len() - 1 {
                assert(rest[m] == path[m]);
            }
        }
        if visible_hits(width, height, rest, k / 4) {
            let m = choose|m: int|
                #![trigger rest[m]]
                0 <= m < rest.len() && rest[m].1 < height && slot(width, rest[m].0 as int, rest[m].1 as int) == k / 4;
            assert(rest[m] == path[m]);
        }
    }
}

/// Plotting `path` in colour `c` over a `width` by `height` image, passing
/// over the pixels below its last row, sets every pixel of the path above
/// that row to `c` (the last one of the path included), and keeps every
/// pixel of the image that no such path pixel lies on.
pub proof fn law_visible_path_drawn(s: Seq<u8>, width: int, height: int, path: Seq<(u32, u32)>, c: Color)
    requires
        s.len() == 4 * width * height,
        visible_fits(width, height, path),
    ensures
        plotted_visible(s, width, height, path, c).len() == s.len(),
        forall|m: int|
            0 <= m < path.len() && path[m].1 < height ==> pixel_is(
                plotted_visible(s, width, height, path, c),
                width,
                #[trigger] path[m].0 as int,
                path[m].1 as int,
                c,
            ),
        forall|x: int, y: int, j: int|
            image_fits(width, height)(x, y) && 0 <= j < 4 && (forall|m: int|
                0 <= m < path.len() && path[m].1 < height ==> #[trigger] path[m] != (x as u32, y as u32))
                ==> #[trigger] plotted_visible(s, width, height, path, c)[offset(width, x, y) + j] == s[offset(
                width,
                x,
                y,
            ) + j],
{
    let r = plotted_visible(s, width, height, path, c);
    if s.len() > 0 {
        lemma_visible_byte(s, width, height, path, c, 0);
    } else {
        assert(r.len() == s.len()) by {
            lemma_visible_len_empty(s, width, height, path, c);
        }
    }
    assert forall|m: int| 0 <= m < path.len() && path[m].1 < height implies pixel_is(
        r,
        width,
        #[trigger] path[m].0 as int,
        path[m].1 as int,
        c,
    ) by {
        let (x, y) = (path[m].0 as int, path[m].1 as int);
        assert(path[m].0 < width);
        lemma_inside_within(width, height, x, y);
        assert forall|j: int| 0 <= j < 4 implies #[trigger] r[offset(width, x, y) + j] == channel(c, j) by {
            lemma_slot_byte(width, x, y, j);
            lemma_visible_byte(s, width, height, path, c, offset(width, x, y) + j);
            assert(visible_hits(width, height, path, slot(width, x, y)));
        }
    }
    assert forall|x: int, y: int, j: int|
        image_fits(width, height)(x, y) && 0 <= j < 4 && (forall|m: int|
            0 <= m < path.len() && path[m].1 < height ==> #[trigger] path[m] != (x as u32, y as u32))
            implies #[trigger] r[offset(width, x, y) + j] == s[offset(width, x, y) + j] by {
        lemma_inside_within(width, height, x, y);
        lemma_slot_byte(width, x, y, j);
        lemma_visible_byte(s, width, height, path, c, offset(width, x, y) + j);
        if visible_hits(width, height, path, slot(width, x, y)) {
            let m = choose|m: int|
                #![trigger path[m]]
                0 <= m < path.len() && path[m].1 < height && slot(width, path[m].0 as int, path[m].1 as int)
                    == slot(width, x, y);
            assert(path[m] != (x as u32, y as u32));
            assert(path[m].0 < width);
            lemma_pixels_apart(width, x, y, path[m].0 as int, path[m].1 as int);
            assert(offset(width, x, y) == 4 * slot(width, x, y)) by (nonlinear_arith);
            assert(offset(width, path[m].0 as int, path[m].1 as int) == 4 * slot(
                width,
                path[m].0 as int,
                path[m].1 as int,
            )) by (nonlinear_arith);
        }
    }
}

proof fn lemma_visible_len_empty(s: Seq<u8>, width: int, height: int, path: Seq<(u32, u32)>, c: Color)
    requires
        s.len() == 0,
        s.len() == 4 * width * height,
        visible_fits(width, height, path),
    ensures
        plotted_visible(s, width, height, path, c).len() == 0,
    decreases path.len(),
{
    if path.len() > 0 {
        let rest = path.drop_last();
        assert forall|m: int| 0 <= m < rest.len() && rest[m].1 < height implies #[trigger] rest[m].0 < width by {
            assert(rest[m] == path[m]);
        }
        lemma_visible_len_empty(s, width, height, rest, c);
        let p = path.last();
        assert(path[path.len() - 1] == p);
        if p.1 < height {
            assert(p.0 < width);
            lemma_pixel_in_image(width, height, p.0 as int, p.1 as int);
        }
    }
}

proof fn lemma_raw_line_pixel(
    s: Seq<u8>,
    width: int,
    p1: (u32, u32),
    p2: (u32, u32),
    path: Seq<(u32, u32)>,
    x: int,
    y: int,
)
    requires
        0 <= width,
        raw_line_fits(s.len() as int, width, p1, p2, path),
        within(s.len() as int, width, x, y),
    ensures
        path_hits(width, path, slot(width, x, y)) ==> pixel_is(raw_line_drawn(s, width, p1, p2, path), width, x, y, black()),
        !path_hits(width, path, slot(width, x, y)) && (slot(width, x, y) == slot(width, p1.0 as int, p1.1 as int)
            || slot(width, x, y) == slot(width, p2.0 as int, p1.1 as int)) ==> pixel_is(
            raw_line_drawn(s, width, p1, p2, path),
            width,
            x,
            y,
            red(),
        ),
{
    let r = raw_line_drawn(s, width, p1, p2, path);
    let sq = slot(width, x, y);
    assert forall|j: int| 0 <= j < 4 implies #[trigger] r[offset(width, x, y) + j] == if path_hits(width, path, sq) {
        channel(black(), j)
    } else if slot(width, p2.0 as int, p1.1 as int) == sq || slot(width, p1.0 as int, p1.1 as int) == sq {
        channel(red(), j)
    } else {
        s[offset(width, x, y) + j]
    } by {
        lemma_slot_byte(width, x, y, j);
        lemma_raw_line_byte(s, width, p1, p2, path, offset(width, x, y) + j);
    }
}

/// A raw line sets every pixel of its path black; it marks `p1`, and column
/// `p2.0` of row `p1.1`, red where no pixel of the path shares their bytes;
/// every byte that none of these pixels occupies keeps its value.
pub proof fn law_raw_line_pixels(s: Seq<u8>, width: int, p1: (u32, u32), p2: (u32, u32), path: Seq<(u32, u32)>)
    requires
        0 <= width,
        raw_line_fits(s.len() as int, width, p1, p2, path),
    ensures
        raw_line_drawn(s, width, p1, p2, path).len() == s.len(),
        forall|m: int|
            0 <= m < path.len() ==> pixel_is(
                raw_line_drawn(s, width, p1, p2, path),
                width,
                #[trigger] path[m].0 as int,
                path[m].1 as int,
                black(),
            ),
        !path_hits(width, path, slot(width, p1.0 as int, p1.1 as int)) ==> pixel_is(
            raw_line_drawn(s, width, p1, p2, path),
            width,
            p1.0 as int,
            p1.1 as int,
            red(),
        ),
        !path_hits(width, path, slot(width, p2.0 as int, p1.1 as int)) ==> pixel_is(
            raw_line_drawn(s, width, p1, p2, path),
            width,
            p2.0 as int,
            p1.1 as int,
            red(),
        ),
        forall|k: int|
            0 <= k < s.len() && !path_hits(width, path, k / 4) && k / 4 != slot(width, p1.0 as int, p1.1 as int)
                && k / 4 != slot(width, p2.0 as int, p1.1 as int) ==> #[trigger] raw_line_drawn(
                s,
                width,
                p1,
                p2,
                path,
            )[k] == s[k],
{
    lemma_writable_within(s.len() as int, width, p1.0 as int, p1.1 as int);
    lemma_writable_within(s.len() as int, width, p2.0 as int, p1.1 as int);
    lemma_raw_line_byte(s, width, p1, p2, path, 0);
    assert forall|m: int| 0 <= m < path.len() implies pixel_is(
        raw_line_drawn(s, width, p1, p2, path),
        width,
        #[trigger] path[m].0 as int,
        path[m].1 as int,
        black(),
    ) by {
        assert(buffer_fits(s.len() as int, width)(path[m].0 as int, path[m].1 as int));
        lemma_writable_within(s.len() as int, width, path[m].0 as int, path[m].1 as int);
        lemma_raw_line_pixel(s, width, p1, p2, path, path[m].0 as int, path[m].1 as int);
        assert(path_hits(width, path, slot(width, path[m].0 as int, path[m].1 as int)));
    }
    lemma_raw_line_pixel(s, width, p1, p2, path, p1.0 as int, p1.1 as int);
    lemma_raw_line_pixel(s, width, p1, p2, path, p2.0 as int, p1.1 as int);
    assert forall|k: int|
        0 <= k < s.len() && !path_hits(width, path, k / 4) && k / 4 != slot(width, p1.0 as int, p1.1 as int)
            && k / 4 != slot(width, p2.0 as int, p1.1 as int) implies #[trigger] raw_line_drawn(
        s,
        width,
        p1,
        p2,
        path,
    )[k] == s[k] by {
        lemma_raw_line_byte(s, width, p1, p2, path, k);
    }
}

proof fn lemma_slot_injective(width: int, height: int, a: (u32, u32), b: (u32, u32))
    requires
        image_fits(width, height)(a.0 as int, a.1 as int),
        image_fits(width, height)(b.0 as int, b.1 as int),
        slot(width, a.0 as int, a.1 as int) == slot(width, b.0 as int, b.1 as int),
    ensures
        a == b,
{
    if a != b {
        assert((a.0 as int, a.1 as int) != (b.0 as int, b.1 as int));
        lemma_pixels_apart(width, a.0 as int, a.1 as int, b.0 as int, b.1 as int);
        assert(offset(width, a.0 as int, a.1 as int) == 4 * slot(width, a.0 as int, a.1 as int)) by (nonlinear_arith);
        assert(offset(width, b.0 as int, b.1 as int) == 4 * slot(width, b.0 as int, b.1 as int)) by (nonlinear_arith);
    }
}

proof fn lemma_line_pixel(
    s: Seq<u8>,
    width: int,
    height: int,
    p1: (u32, u32),
    p2: (u32, u32),
    path: Seq<(u32, u32)>,
    q: (u32, u32),
)
    requires
        s.len() == 4 * width * height,
        line_inside(width, height, p1, p2, path),
        image_fits(width, height)(q.0 as int, q.1 as int),
    ensures
        path.contains(q) ==> pixel_is(line_drawn(s, width, p1, p2, path), width, q.0 as int, q.1 as int, black()),
        !path.contains(q) && (q == p1 || q == p2) ==> pixel_is(
            line_drawn(s, width, p1, p2, path),
            width,
            q.0 as int,
            q.1 as int,
            red(),
        ),
{
    let r = line_drawn(s, width, p1, p2, path);
    let (x, y) = (q.0 as int, q.1 as int);
    lemma_inside_within(width, height, x, y);
    let sq = slot(width, x, y);
    if path_hits(width, path, sq) {
        let m = choose|m: int| #![trigger path[m]] 0 <= m < path.len() && slot(width, path[m].0 as int, path[m].1 as int) == sq;
        assert(image_fits(width, height)(path[m].0 as int, path[m].1 as int));
        lemma_slot_injective(width, height, path[m], q);
        assert(path.contains(q));
    }
    if path.contains(q) {
        let m = choose|m: int| 0 <= m < path.len() && path[m] == q;
        assert(path[m] == q);
        assert(path_hits(width, path, sq));
    }
    assert forall|j: int| 0 <= j < 4 implies #[trigger] r[offset(width, x, y) + j] == if path_hits(width, path, sq) {
        channel(black(), j)
    } else if slot(width, p2.0 as int, p2.1 as int) == sq || slot(width, p1.0 as int, p1.1 as int) == sq {
        channel(red(), j)
    } else {
        s[offset(width, x, y) + j]
    } by {
        lemma_slot_byte(width, x, y, j);
        lemma_line_byte(s, width, height, p1, p2, path, offset(width, x, y) + j);
    }
}

/// A line drawn into an image sets every pixel of its path black, and marks
/// each end that is not on the path red.
pub proof fn law_line_pixels(
    s: Seq<u8>,
    width: int,
    height: int,
    p1: (u32, u32),
    p2: (u32, u32),
    path: Seq<(u32, u32)>,
)
    requires
        s.len() == 4 * width * height,
        line_inside(width, height, p1, p2, path),
    ensures
        line_drawn(s, width, p1, p2, path).len() == s.len(),
        forall|m: int|
            0 <= m < path.len() ==> pixel_is(
                line_drawn(s, width, p1, p2, path),
                width,
                #[trigger] path[m].0 as int,
                path[m].1 as int,
                black(),
            ),
        !path.contains(p1) ==> pixel_is(line_drawn(s, width, p1, p2, path), width, p1.0 as int, p1.1 as int, red()),
        !path.contains(p2) ==> pixel_is(line_drawn(s, width, p1, p2, path), width, p2.0 as int, p2.1 as int, red()),
{
    lemma_inside_within(width, height, p1.0 as int, p1.1 as int);
    lemma_line_byte(s, width, height, p1, p2, path, 0);
    assert forall|m: int| 0 <= m < path.len() implies pixel_is(
        line_drawn(s, width, p1, p2, path),
        width,
        #[trigger] path[m].0 as int,
        path[m].1 as int,
        black(),
    ) by {
        assert(image_fits(width, height)(path[m].0 as int, path[m].1 as int));
        assert(path.contains(path[m]));
        lemma_line_pixel(s, width, height, p1, p2, path, path[m]);
    }
    lemma_line_pixel(s, width, height, p1, p2, path, p1);
    lemma_line_pixel(s, width, height, p1, p2, path, p2);
}

/// The demo line's 320 by 240 canvas: every pixel of the path above the last
/// row is black; each end is red unless such a path pixel lies on it; every
/// other pixel is zero.
pub proof fn law_demo_line_canvas(p1: (u32, u32), p2: (u32, u32), path: Seq<(u32, u32)>)
    requires
        image_fits(320, 240)(p1.0 as int, p1.1 as int),
        image_fits(320, 240)(p2.0 as int, p2.1 as int),
        visible_fits(320, 240, path),
    ensures
        demo_line_drawn(p1, p2, path).len() == 4 * 320 * 240,
        forall|m: int|
            0 <= m < path.len() && path[m].1 < 240 ==> pixel_is(
                demo_line_drawn(p1, p2, path),
                320,
                #[trigger] path[m].0 as int,
                path[m].1 as int,
                black(),
            ),
        (forall|m: int| 0 <= m < path.len() && path[m].1 < 240 ==> #[trigger] path[m] != p1) ==> pixel_is(
            demo_line_drawn(p1, p2, path),
            320,
            p1.0 as int,
            p1.1 as int,
            red(),
        ),
        (forall|m: int| 0 <= m < path.len() && path[m].1 < 240 ==> #[trigger] path[m] != p2) ==> pixel_is(
            demo_line_drawn(p1, p2, path),
            320,
            p2.0 as int,
            p2.1 as int,
            red(),
        ),
        forall|x: int, y: int, j: int|
            image_fits(320, 240)(x, y) && 0 <= j < 4 && (x as u32, y as u32) != p1 && (x as u32, y as u32) != p2
                && (forall|m: int| 0 <= m < path.len() && path[m].1 < 240 ==> #[trigger] path[m] != (x as u32, y as u32))
                ==> #[trigger] demo_line_drawn(p1, p2, path)[offset(320, x, y) + j] == 0,
{
    let s0 = blank(4 * 320 * 240int);
    let s1 = painted(s0, 320, p1.0 as int, p1.1 as int, red());
    let s2 = painted(s1, 320, p2.0 as int, p2.1 as int, red());
    lemma_inside_within(320, 240, p1.0 as int, p1.1 as int);
    lemma_inside_within(320, 240, p2.0 as int, p2.1 as int);
    lemma_painted_byte(s0, 320, p1.0 as int, p1.1 as int, red(), 0);
    lemma_painted_byte(s1, 320, p2.0 as int, p2.1 as int, red(), 0);
    law_visible_path_drawn(s2, 320, 240, path, black());
    assert forall|q: (u32, u32), j: int|
        (q == p1 || q == p2) && 0 <= j < 4 implies #[trigger] s2[offset(320, q.0 as int, q.1 as int) + j] == channel(
        red(),
        j,
    ) by {
        lemma_inside_within(320, 240, q.0 as int, q.1 as int);
        lemma_slot_byte(320, q.0 as int, q.1 as int, j);
        let k = offset(320, q.0 as int, q.1 as int) + j;
        lemma_painted_byte(s0, 320, p1.0 as int, p1.1 as int, red(), k);
        lemma_painted_byte(s1, 320, p2.0 as int, p2.1 as int, red(), k);
    }
    if forall|m: int| 0 <= m < path.len() && path[m].1 < 240 ==> #[trigger] path[m] != p1 {
        assert forall|j: int| 0 <= j < 4 implies #[trigger] demo_line_drawn(p1, p2, path)[offset(320, p1.0 as int, p1.1 as int) + j] == channel(red(), j) by {
            assert(s2[offset(320, p1.0 as int, p1.1 as int) + j] == channel(red(), j));
        }
    }
    if forall|m: int| 0 <= m < path.len() && path[m].1 < 240 ==> #[trigger] path[m] != p2 {
        assert forall|j: int| 0 <= j < 4 implies #[trigger] demo_line_drawn(p1, p2, path)[offset(320, p2.0 as int, p2.1 as int) + j] == channel(red(), j) by {
            assert(s2[offset(320, p2.0 as int, p2.1 as int) + j] == channel(red(), j));
        }
    }
    assert forall|x: int, y: int, j: int|
        image_fits(320, 240)(x, y) && 0 <= j < 4 && (x as u32, y as u32) != p1 && (x as u32, y as u32) != p2
            && (forall|m: int| 0 <= m < path.len() && path[m].1 < 240 ==> #[trigger] path[m] != (x as u32, y as u32))
            implies #[trigger] demo_line_drawn(p1, p2, path)[offset(320, x, y) + j] == 0 by {
        lemma_inside_within(320, 240, x, y);
        let k = offset(320, x, y) + j;
        assert(demo_line_drawn(p1, p2, path)[k] == s2[k]);
        lemma_slot_byte(320, x, y, j);
        lemma_painted_byte(s0, 320, p1.0 as int, p1.1 as int, red(), k);
        lemma_painted_byte(s1, 320, p2.0 as int, p2.1 as int, red(), k);
        if slot(320, p1.0 as int, p1.1 as int) == slot(320, x, y) {
            lemma_slot_injective(320, 240, p1, (x as u32, y as u32));
        }
        if slot(320, p2.0 as int, p2.1 as int) == slot(320, x, y) {
            lemma_slot_injective(320, 240, p2, (x as u32, y as u32));
        }
    }
}

/// Ordering the corners of `t` by row lists each corner once, rows never
/// growing from first to last; of two corners on the same row, the one later
/// in `t` comes first.
pub proof fn law_corners_by_row<V: Corner>(t: (V, V, V))
    ensures
        exists|i: int, j: int, k: int|
            #![trigger corner(t, i), corner(t, j), corner(t, k)]
            {
                &&& 0 <= i < 3 && 0 <= j < 3 && 0 <= k < 3 && i != j && j != k && i != k
                &&& sorted_by_row(t) == (corner(t, i), corner(t, j), corner(t, k))
                &&& corner(t, i).row_of() >= corner(t, j).row_of() >= corner(t, k).row_of()
                &&& corner(t, i).row_of() == corner(t, j).row_of() ==> i > j
                &&& corner(t, j).row_of() == corner(t, k).row_of() ==> j > k
            },
{
    lemma_ordered_exists(t);
}

} // verus!
