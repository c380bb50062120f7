//! The renderer: an RGBA image that lines and triangles are drawn into.
//!
//! Two ways of drawing are offered. The `*_raw` operations work on a packed
//! byte buffer of the image's width (`draw`, `draw_triangle_raw` and
//! `draw_triangle_gradient` build a fresh black, transparent buffer, draw into
//! it and make it the new image). The others set the image's pixels one by
//! one with `put_pixel`.
//!
//! Where a line's pixels lie and where a row crosses a triangle's edges, and
//! the colours of a gradient, are computed by the caller: the path of each
//! line is handed in as the list of its pixels, the crossings and the
//! gradient as functions of the row and of the pixel.
//!
//! Every drawing operation first checks that all of its pixels can be
//! written; when one cannot, it fails with `DrawError::OutOfBounds` and
//! changes nothing.
use vstd::prelude::*;

use crate::color::{black, green, red, Color};
use crate::image_buffer::{
    image_bytes, image_from_vec, image_height, image_raw, image_size, image_width, new_image,
    RgbaImage,
};
use crate::line::{raw_line, raw_line_drawn, raw_line_fits, raw_marks_fit};
use crate::order::{corner_rows, order_by_row, sorted_by_row, spot, Corner};
use crate::picture::{
    image_fill_triangle, image_fits, image_path_inside, image_plot, image_plot_visible, image_set,
    image_triangle_inside, image_visible_inside, packed, plotted_visible, visible_fits,
};
use crate::pixels::{buffer_fits, painted, path_fits, path_writable, plotted, DrawError};
use crate::triangle::{
    edges_ready, fill_triangle, flat, shade_ready, shade_triangle, shading, triangle_answered,
    triangle_fits, triangle_painted, triangle_shade_answered, triangle_writable, Half,
};

verus! {

/// A buffer of `n` zero bytes.
pub open spec fn blank(n: int) -> Seq<u8> {
    Seq::new(n as nat, |i: int| 0u8)
}

/// The pixel paths of the three sides of a triangle with corners `a`, `b`,
/// `c`: from `a` to `b`, from `a` to `c` and from `b` to `c`.
pub struct Outline {
    pub ab: Vec<(u32, u32)>,
    pub ac: Vec<(u32, u32)>,
    pub bc: Vec<(u32, u32)>,
}

/// The three sides of the triangle `points` can be drawn as raw lines into
/// a buffer of `len` bytes.
pub open spec fn raw_outline_fits<V: Corner>(len: int, width: int, points: (V, V, V), outline: Outline) -> bool {
    &&& raw_line_fits(len, width, spot(points.0), spot(points.1), outline.ab@)
    &&& raw_line_fits(len, width, spot(points.0), spot(points.2), outline.ac@)
    &&& raw_line_fits(len, width, spot(points.1), spot(points.2), outline.bc@)
}

/// The endpoint marks of the three sides of the triangle `points`, drawn as
/// raw lines, can be written into a buffer of `len` bytes.
pub open spec fn raw_corner_marks_fit<V: Corner>(len: int, width: int, points: (V, V, V)) -> bool {
    &&& raw_marks_fit(len, width, spot(points.0), spot(points.1))
    &&& raw_marks_fit(len, width, spot(points.0), spot(points.2))
    &&& raw_marks_fit(len, width, spot(points.1), spot(points.2))
}

/// The corners of the triangle `points` lie inside a `width` by `height` image.
pub open spec fn corners_inside(width: int, height: int, points: ((u32, u32), (u32, u32), (u32, u32))) -> bool {
    &&& image_fits(width, height)(points.0.0 as int, points.0.1 as int)
    &&& image_fits(width, height)(points.1.0 as int, points.1.1 as int)
    &&& image_fits(width, height)(points.2.0 as int, points.2.1 as int)
}

/// The buffer `s` with the three sides of the triangle `points` drawn as raw
/// lines, in the order `ab`, `ac`, `bc`.
pub open spec fn raw_outlined<V: Corner>(s: Seq<u8>, width: int, points: (V, V, V), outline: Outline) -> Seq<u8> {
    let s1 = raw_line_drawn(s, width, spot(points.0), spot(points.1), outline.ab@);
    let s2 = raw_line_drawn(s1, width, spot(points.0), spot(points.2), outline.ac@);
    raw_line_drawn(s2, width, spot(points.1), spot(points.2), outline.bc@)
}

/// A line from `p1` to `p2` along `path` lies inside a `width` by `height` image.
pub open spec fn line_inside(width: int, height: int, p1: (u32, u32), p2: (u32, u32), path: Seq<(u32, u32)>) -> bool {
    &&& image_fits(width, height)(p1.0 as int, p1.1 as int)
    &&& image_fits(width, height)(p2.0 as int, p2.1 as int)
    &&& path_fits(image_fits(width, height), path)
}

/// The image bytes `s` after a line: red at `p1`, red at `p2`, then black
/// along `path`.
pub open spec fn line_drawn(s: Seq<u8>, width: int, p1: (u32, u32), p2: (u32, u32), path: Seq<(u32, u32)>) -> Seq<u8> {
    let ends = painted(painted(s, width, p1.0 as int, p1.1 as int, red()), width, p2.0 as int, p2.1 as int, red());
    plotted(ends, width, path, black())
}

/// The three sides of the triangle `points` lie inside the image.
pub open spec fn outline_inside(width: int, height: int, points: ((u32, u32), (u32, u32), (u32, u32)), outline: Outline) -> bool {
    &&& line_inside(width, height, points.0, points.1, outline.ab@)
    &&& line_inside(width, height, points.0, points.2, outline.ac@)
    &&& line_inside(width, height, points.1, points.2, outline.bc@)
}

/// The image bytes `s` with the three sides of the triangle `points` drawn,
/// in the order `ab`, `ac`, `bc`.
pub open spec fn outlined(s: Seq<u8>, width: int, points: ((u32, u32), (u32, u32), (u32, u32)), outline: Outline) -> Seq<u8> {
    let s1 = line_drawn(s, width, points.0, points.1, outline.ab@);
    let s2 = line_drawn(s1, width, points.0, points.2, outline.ac@);
    line_drawn(s2, width, points.1, points.2, outline.bc@)
}

proof fn lemma_buffer_len(width: u32, height: u32)
    ensures
        width * height * 4 == 4 * width * height,
{
    assert(width * height * 4 == 4 * width * height) by (nonlinear_arith);
}

/// The bytes of a black, transparent 320 by 240 image after the demo line:
/// red at `p1`, red at `p2`, then black at each pixel of `path` above the
/// last row, in turn.
pub open spec fn demo_line_drawn(p1: (u32, u32), p2: (u32, u32), path: Seq<(u32, u32)>) -> Seq<u8> {
    plotted_visible(
        painted(
            painted(blank(4 * 320 * 240int), 320, p1.0 as int, p1.1 as int, red()),
            320,
            p2.0 as int,
            p2.1 as int,
            red(),
        ),
        320,
        240,
        path,
        black(),
    )
}

/// Fills `n` zero bytes into a new buffer.
fn blank_buffer(n: usize) -> (v: Vec<u8>)
    ensures
        v@ == blank(n as int),
{
    let mut v: Vec<u8> = Vec::with_capacity(n);
    let mut i: usize = 0;
    while i < n
        invariant
            0 <= i <= n,
            v@ == blank(i as int),
        decreases n - i,
    {
        v.push(0u8);
        i += 1;
        assert(v@ =~= blank(i as int));
    }
    v
}

/// An RGBA image, four bytes per pixel, that lines and triangles are drawn into.
pub struct Renderer {
    image: RgbaImage,
}

impl Renderer {
    /// Width and height of the image, in pixels.
    pub closed spec fn spec_size(&self) -> (u32, u32) {
        image_size(self.image)
    }

    /// The image's bytes: pixel `(x, y)` at `x * 4 + width * y * 4`, four
    /// channels r, g, b, a.
    pub closed spec fn spec_pixels(&self) -> Seq<u8> {
        image_bytes(self.image)
    }

    /// The image holds exactly four bytes per pixel.
    pub closed spec fn wf(&self) -> bool {
        packed(self.image)
    }

    /// A renderer whose image is `bounds.0` by `bounds.1` pixels, all zero
    /// (black and transparent).
    pub fn new(bounds: (u32, u32)) -> (r: Renderer)
        requires
            4 * bounds.0 <= usize::MAX,
            4 * bounds.0 * bounds.1 <= usize::MAX,
        ensures
            r.wf(),
            r.spec_size() == bounds,
            r.spec_pixels() == blank(4 * bounds.0 * bounds.1),
    {
        Renderer { image: new_image(bounds.0, bounds.1) }
    }

    /// The image's width.
    pub fn width(&self) -> (w: u32)
        ensures
            w == self.spec_size().0,
    {
        image_width(&self.image)
    }

    /// The image's height.
    pub fn height(&self) -> (h: u32)
        ensures
            h == self.spec_size().1,
    {
        image_height(&self.image)
    }

    /// The image's bytes, four per pixel, row after row.
    pub fn pixels(&self) -> (p: &Vec<u8>)
        requires
            self.wf(),
        ensures
            p@ == self.spec_pixels(),
            p@.len() == 4 * self.spec_size().0 * self.spec_size().1,
    {
        image_raw(&self.image)
    }

    /// Draws a line into the packed buffer `pixels`, whose rows are as wide
    /// as the image: red at `point1`, red at column `point2.0` of row
    /// `point1.1`, then black at each pixel of `path` in turn.
    pub fn draw_line_raw(
        &self,
        point1: (u32, u32),
        point2: (u32, u32),
        path: &Vec<(u32, u32)>,
        pixels: &mut Vec<u8>,
    ) -> (r: Result<(), DrawError>)
        requires
            raw_marks_fit(old(pixels)@.len() as int, self.spec_size().0 as int, point1, point2),
        ensures
            final(pixels)@.len() == old(pixels)@.len(),
            r is Ok <==> path_fits(buffer_fits(old(pixels)@.len() as int, self.spec_size().0 as int), path@),
            r is Ok ==> final(pixels)@ == raw_line_drawn(old(pixels)@, self.spec_size().0 as int, point1, point2, path@),
            r is Err ==> final(pixels)@ == old(pixels)@,
    {
        let width = image_width(&self.image);
        if path_writable(pixels.len(), width, path) {
            raw_line(pixels, width, point1, point2, path);
            Ok(())
        } else {
            Err(DrawError::OutOfBounds)
        }
    }

    /// Replaces the image by a black, transparent one of the same size with
    /// a line drawn by `draw_line_raw`.
    pub fn draw(&mut self, point1: (u32, u32), point2: (u32, u32), path: &Vec<(u32, u32)>) -> (r: Result<(), DrawError>)
        requires
            old(self).wf(),
            4 * old(self).spec_size().0 <= usize::MAX,
            old(self).spec_size().0 * old(self).spec_size().1 * 4 <= u32::MAX,
            raw_marks_fit(
                4 * old(self).spec_size().0 * old(self).spec_size().1,
                old(self).spec_size().0 as int,
                point1,
                point2,
            ),
        ensures
            final(self).wf(),
            final(self).spec_size() == old(self).spec_size(),
            r is Ok <==> path_fits(
                buffer_fits(4 * old(self).spec_size().0 * old(self).spec_size().1, old(self).spec_size().0 as int),
                path@,
            ),
            r is Ok ==> final(self).spec_pixels() == raw_line_drawn(
                blank(4 * old(self).spec_size().0 * old(self).spec_size().1),
                old(self).spec_size().0 as int,
                point1,
                point2,
                path@,
            ),
            r is Err ==> *final(self) == *old(self),
    {
        let width = image_width(&self.image);
        let height = image_height(&self.image);
        proof {
            lemma_buffer_len(width, height);
        }
        let mut pixels = blank_buffer((width * height * 4) as usize);
        match self.draw_line_raw(point1, point2, path, &mut pixels) {
            Ok(()) => {},
            Err(e) => {
                return Err(e);
            },
        }
        self.replace_image(width, height, pixels);
        Ok(())
    }

    /// Makes `pixels`, a packed `width` by `height` buffer, the image.
    fn replace_image(&mut self, width: u32, height: u32, pixels: Vec<u8>)
        requires
            old(self).wf(),
            4 * width <= usize::MAX,
            pixels@.len() == 4 * width * height,
            4 * width * height <= usize::MAX,
        ensures
            final(self).wf(),
            final(self).spec_size() == (width, height),
            final(self).spec_pixels() == pixels@,
    {
        match image_from_vec(width, height, pixels) {
            Some(image) => {
                self.image = image;
            },
            None => {},
        }
    }

    /// Fills the triangle with corners `sorted_points`, ordered by row
    /// (largest first), into the packed buffer `pixels` with green, the right
    /// crossing of each row excluded.
    pub fn paint_triangle_raw<E: Fn(Half, u32) -> (u32, u32)>(
        &self,
        sorted_points: ((u32, u32), (u32, u32), (u32, u32)),
        edges: &E,
        pixels: &mut Vec<u8>,
    ) -> (r: Result<(), DrawError>)
        requires
            edges_ready(*edges),
        ensures
            triangle_answered(*edges, corner_rows(sorted_points)),
            final(pixels)@.len() == old(pixels)@.len(),
            r is Ok <==> triangle_fits(
                buffer_fits(old(pixels)@.len() as int, self.spec_size().0 as int),
                corner_rows(sorted_points),
                *edges,
                false,
            ),
            r is Ok ==> final(pixels)@ == triangle_painted(
                old(pixels)@,
                self.spec_size().0 as int,
                corner_rows(sorted_points),
                *edges,
                false,
                flat(green()),
            ),
            r is Err ==> final(pixels)@ == old(pixels)@,
    {
        let width = image_width(&self.image);
        let rows = (sorted_points.0.1, sorted_points.1.1, sorted_points.2.1);
        if triangle_writable(pixels.len(), width, rows, edges, false) {
            fill_triangle(pixels, width, rows, edges, Color::green());
            Ok(())
        } else {
            Err(DrawError::OutOfBounds)
        }
    }

    /// Fills the triangle with corners `sorted_points`, ordered by row
    /// (largest first), into the packed buffer `pixels`, each pixel with the
    /// opaque colour `shade` gives it, the right crossing of each row
    /// included.
    pub fn paint_gradient_triangle_raw<E: Fn(Half, u32) -> (u32, u32), S: Fn(u32, u32) -> (u8, u8, u8)>(
        &self,
        sorted_points: ((u32, u32, u8, u8, u8), (u32, u32, u8, u8, u8), (u32, u32, u8, u8, u8)),
        edges: &E,
        shade: &S,
        pixels: &mut Vec<u8>,
    ) -> (r: Result<(), DrawError>)
        requires
            edges_ready(*edges),
            shade_ready(*shade),
        ensures
            triangle_answered(*edges, corner_rows(sorted_points)),
            r is Ok ==> triangle_shade_answered(*shade, *edges, corner_rows(sorted_points)),
            final(pixels)@.len() == old(pixels)@.len(),
            r is Ok <==> triangle_fits(
                buffer_fits(old(pixels)@.len() as int, self.spec_size().0 as int),
                corner_rows(sorted_points),
                *edges,
                true,
            ),
            r is Ok ==> final(pixels)@ == triangle_painted(
                old(pixels)@,
                self.spec_size().0 as int,
                corner_rows(sorted_points),
                *edges,
                true,
                shading(*shade),
            ),
            r is Err ==> final(pixels)@ == old(pixels)@,
    {
        let width = image_width(&self.image);
        let rows = (sorted_points.0.1, sorted_points.1.1, sorted_points.2.1);
        if triangle_writable(pixels.len(), width, rows, edges, true) {
            shade_triangle(pixels, width, rows, edges, shade);
            Ok(())
        } else {
            Err(DrawError::OutOfBounds)
        }
    }

    /// Replaces the image by a black, transparent one of the same size with
    /// the triangle `points` filled green (`paint_triangle_raw` on the corners
    /// ordered by `order_by_row`) and its sides then drawn by
    /// `draw_line_raw`: `points.0` to `points.1`, `points.0` to `points.2`,
    /// `points.1` to `points.2`.
    pub fn draw_triangle_raw<E: Fn(Half, u32) -> (u32, u32)>(
        &mut self,
        points: ((u32, u32), (u32, u32), (u32, u32)),
        edges: &E,
        outline: &Outline,
    ) -> (r: Result<(), DrawError>)
        requires
            old(self).wf(),
            edges_ready(*edges),
            4 * old(self).spec_size().0 <= usize::MAX,
            old(self).spec_size().0 * old(self).spec_size().1 * 4 <= u32::MAX,
            raw_corner_marks_fit(
                4 * old(self).spec_size().0 * old(self).spec_size().1,
                old(self).spec_size().0 as int,
                points,
            ),
        ensures
            triangle_answered(*edges, corner_rows(sorted_by_row(points))),
            final(self).wf(),
            final(self).spec_size() == old(self).spec_size(),
            r is Ok <==> {
                let n = 4 * old(self).spec_size().0 * old(self).spec_size().1;
                let w = old(self).spec_size().0 as int;
                &&& triangle_fits(buffer_fits(n, w), corner_rows(sorted_by_row(points)), *edges, false)
                &&& raw_outline_fits(n, w, points, *outline)
            },
            r is Ok ==> final(self).spec_pixels() == raw_outlined(
                triangle_painted(
                    blank(4 * old(self).spec_size().0 * old(self).spec_size().1),
                    old(self).spec_size().0 as int,
                    corner_rows(sorted_by_row(points)),
                    *edges,
                    false,
                    flat(green()),
                ),
                old(self).spec_size().0 as int,
                points,
                *outline,
            ),
            r is Err ==> *final(self) == *old(self),
    {
        let width = image_width(&self.image);
        let height = image_height(&self.image);
        proof {
            lemma_buffer_len(width, height);
        }
        let mut pixels = blank_buffer((width * height * 4) as usize);
        let sorted = order_by_row(points);
        if let Err(e) = self.paint_triangle_raw(sorted, edges, &mut pixels) {
            return Err(e);
        }
        if let Err(e) = self.draw_line_raw(points.0, points.1, &outline.ab, &mut pixels) {
            return Err(e);
        }
        if let Err(e) = self.draw_line_raw(points.0, points.2, &outline.ac, &mut pixels) {
            return Err(e);
        }
        if let Err(e) = self.draw_line_raw(points.1, points.2, &outline.bc, &mut pixels) {
            return Err(e);
        }
        self.replace_image(width, height, pixels);
        Ok(())
    }

    /// Replaces the image by a black, transparent one of the same size with
    /// the triangle `points` filled with the colours of `shade`
    /// (`paint_gradient_triangle_raw` on the corners ordered by
    /// `order_by_row`) and its sides then drawn by `draw_line_raw`:
    /// `points.0` to `points.1`, `points.0` to `points.2`, `points.1` to
    /// `points.2`.
    pub fn draw_triangle_gradient<E: Fn(Half, u32) -> (u32, u32), S: Fn(u32, u32) -> (u8, u8, u8)>(
        &mut self,
        points: ((u32, u32, u8, u8, u8), (u32, u32, u8, u8, u8), (u32, u32, u8, u8, u8)),
        edges: &E,
        shade: &S,
        outline: &Outline,
    ) -> (r: Result<(), DrawError>)
        requires
            old(self).wf(),
            edges_ready(*edges),
            shade_ready(*shade),
            4 * old(self).spec_size().0 <= usize::MAX,
            old(self).spec_size().0 * old(self).spec_size().1 * 4 <= u32::MAX,
            raw_corner_marks_fit(
                4 * old(self).spec_size().0 * old(self).spec_size().1,
                old(self).spec_size().0 as int,
                points,
            ),
        ensures
            triangle_answered(*edges, corner_rows(sorted_by_row(points))),
            r is Ok ==> triangle_shade_answered(*shade, *edges, corner_rows(sorted_by_row(points))),
            final(self).wf(),
            final(self).spec_size() == old(self).spec_size(),
            r is Ok <==> {
                let n = 4 * old(self).spec_size().0 * old(self).spec_size().1;
                let w = old(self).spec_size().0 as int;
                &&& triangle_fits(buffer_fits(n, w), corner_rows(sorted_by_row(points)), *edges, true)
                &&& raw_outline_fits(n, w, points, *outline)
            },
            r is Ok ==> final(self).spec_pixels() == raw_outlined(
                triangle_painted(
                    blank(4 * old(self).spec_size().0 * old(self).spec_size().1),
                    old(self).spec_size().0 as int,
                    corner_rows(sorted_by_row(points)),
                    *edges,
                    true,
                    shading(*shade),
                ),
                old(self).spec_size().0 as int,
                points,
                *outline,
            ),
            r is Err ==> *final(self) == *old(self),
    {
        let width = image_width(&self.image);
        let height = image_height(&self.image);
        proof {
            lemma_buffer_len(width, height);
        }
        let mut pixels = blank_buffer((width * height * 4) as usize);
        let sorted = order_by_row(points);
        if let Err(e) = self.paint_gradient_triangle_raw(sorted, edges, shade, &mut pixels) {
            return Err(e);
        }
        let a = (points.0.0, points.0.1);
        let b = (points.1.0, points.1.1);
        let c = (points.2.0, points.2.1);
        if let Err(e) = self.draw_line_raw(a, b, &outline.ab, &mut pixels) {
            return Err(e);
        }
        if let Err(e) = self.draw_line_raw(a, c, &outline.ac, &mut pixels) {
            return Err(e);
        }
        if let Err(e) = self.draw_line_raw(b, c, &outline.bc, &mut pixels) {
            return Err(e);
        }
        self.replace_image(width, height, pixels);
        Ok(())
    }

    /// Draws a line into the image: red at `point1` and at `point2`, then
    /// black at each pixel of `path` in turn.
    pub fn draw_line(&mut self, point1: (u32, u32), point2: (u32, u32), path: &Vec<(u32, u32)>) -> (r: Result<(), DrawError>)
        requires
            old(self).wf(),
            image_fits(old(self).spec_size().0 as int, old(self).spec_size().1 as int)(point1.0 as int, point1.1 as int),
            image_fits(old(self).spec_size().0 as int, old(self).spec_size().1 as int)(point2.0 as int, point2.1 as int),
        ensures
            final(self).wf(),
            final(self).spec_size() == old(self).spec_size(),
            r is Ok <==> path_fits(
                image_fits(old(self).spec_size().0 as int, old(self).spec_size().1 as int),
                path@,
            ),
            r is Ok ==> final(self).spec_pixels() == line_drawn(
                old(self).spec_pixels(),
                old(self).spec_size().0 as int,
                point1,
                point2,
                path@,
            ),
            r is Err ==> *final(self) == *old(self),
    {
        let width = image_width(&self.image);
        let height = image_height(&self.image);
        if !image_path_inside(width, height, path) {
            return Err(DrawError::OutOfBounds);
        }
        image_set(&mut self.image, point1.0, point1.1, Color::red());
        image_set(&mut self.image, point2.0, point2.1, Color::red());
        image_plot(&mut self.image, path, Color::black());
        Ok(())
    }

    /// Fills the triangle with corners `sorted_points`, ordered by row
    /// (largest first), in the image with green, the right crossing of each
    /// row excluded.
    pub fn paint_triangle<E: Fn(Half, u32) -> (u32, u32)>(
        &mut self,
        sorted_points: ((u32, u32), (u32, u32), (u32, u32)),
        edges: &E,
    ) -> (r: Result<(), DrawError>)
        requires
            old(self).wf(),
            edges_ready(*edges),
        ensures
            triangle_answered(*edges, corner_rows(sorted_points)),
            final(self).wf(),
            final(self).spec_size() == old(self).spec_size(),
            r is Ok <==> triangle_fits(
                image_fits(old(self).spec_size().0 as int, old(self).spec_size().1 as int),
                corner_rows(sorted_points),
                *edges,
                false,
            ),
            r is Ok ==> final(self).spec_pixels() == triangle_painted(
                old(self).spec_pixels(),
                old(self).spec_size().0 as int,
                corner_rows(sorted_points),
                *edges,
                false,
                flat(green()),
            ),
            r is Err ==> *final(self) == *old(self),
    {
        let width = image_width(&self.image);
        let height = image_height(&self.image);
        let rows = (sorted_points.0.1, sorted_points.1.1, sorted_points.2.1);
        if !image_triangle_inside(width, height, rows, edges) {
            return Err(DrawError::OutOfBounds);
        }
        image_fill_triangle(&mut self.image, rows, edges, Color::green());
        Ok(())
    }

    /// Fills the triangle `points` green in the image (`paint_triangle` on
    /// the corners ordered by `order_by_row`) and then draws its sides with
    /// `draw_line`: `points.0` to `points.1`, `points.0` to `points.2`,
    /// `points.1` to `points.2`.
    pub fn draw_triangle<E: Fn(Half, u32) -> (u32, u32)>(
        &mut self,
        points: ((u32, u32), (u32, u32), (u32, u32)),
        edges: &E,
        outline: &Outline,
    ) -> (r: Result<(), DrawError>)
        requires
            old(self).wf(),
            edges_ready(*edges),
            corners_inside(old(self).spec_size().0 as int, old(self).spec_size().1 as int, points),
        ensures
            triangle_answered(*edges, corner_rows(sorted_by_row(points))),
            final(self).wf(),
            final(self).spec_size() == old(self).spec_size(),
            r is Ok <==> {
                let w = old(self).spec_size().0 as int;
                let h = old(self).spec_size().1 as int;
                &&& triangle_fits(image_fits(w, h), corner_rows(sorted_by_row(points)), *edges, false)
                &&& outline_inside(w, h, points, *outline)
            },
            r is Ok ==> final(self).spec_pixels() == outlined(
                triangle_painted(
                    old(self).spec_pixels(),
                    old(self).spec_size().0 as int,
                    corner_rows(sorted_by_row(points)),
                    *edges,
                    false,
                    flat(green()),
                ),
                old(self).spec_size().0 as int,
                points,
                *outline,
            ),
            r is Err ==> *final(self) == *old(self),
    {
        let width = image_width(&self.image);
        let height = image_height(&self.image);
        let sorted = order_by_row(points);
        let rows = (sorted.0.1, sorted.1.1, sorted.2.1);
        if !(image_triangle_inside(width, height, rows, edges) && image_path_inside(width, height, &outline.ab)
            && image_path_inside(width, height, &outline.ac) && image_path_inside(
            width,
            height,
            &outline.bc,
        )) {
            return Err(DrawError::OutOfBounds);
        }
        let _ = self.paint_triangle(sorted, edges);
        let _ = self.draw_line(points.0, points.1, &outline.ab);
        let _ = self.draw_line(points.0, points.2, &outline.ac);
        let _ = self.draw_line(points.1, points.2, &outline.bc);
        Ok(())
    }
}

/// A black, transparent 320 by 240 image with a line drawn on it: red at
/// `point1` and at `point2`, then black at each pixel of `path` in turn that
/// lies above the image's last row; the pixels of `path` below it are passed
/// over.
pub fn draw_line(point1: (u32, u32), point2: (u32, u32), path: &Vec<(u32, u32)>) -> (r: Result<Renderer, DrawError>)
    requires
        image_fits(320, 240)(point1.0 as int, point1.1 as int),
        image_fits(320, 240)(point2.0 as int, point2.1 as int),
    ensures
        r is Ok <==> visible_fits(320, 240, path@),
        r matches Ok(canvas) ==> {
            &&& canvas.wf()
            &&& canvas.spec_size() == (320u32, 240u32)
            &&& canvas.spec_pixels() == demo_line_drawn(point1, point2, path@)
        },
{
    let (width, height) = (320u32, 240u32);
    if !image_visible_inside(width, height, path) {
        return Err(DrawError::OutOfBounds);
    }
    let mut canvas = Renderer::new((width, height));
    image_set(&mut canvas.image, point1.0, point1.1, Color::red());
    image_set(&mut canvas.image, point2.0, point2.1, Color::red());
    image_plot_visible(&mut canvas.image, path, Color::black());
    Ok(canvas)
}

} // verus!
