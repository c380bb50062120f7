use rasterizer::pixels::DrawError;
use rasterizer::renderer::{Outline, Renderer};
use rasterizer::triangle::Half;

fn pixel(bytes: &[u8], width: u32, x: u32, y: u32) -> [u8; 4] {
    let i = (x * 4 + width * y * 4) as usize;
    [bytes[i], bytes[i + 1], bytes[i + 2], bytes[i + 3]]
}

const RED: [u8; 4] = [255, 0, 0, 255];
const BLACK: [u8; 4] = [0, 0, 0, 255];
const GREEN: [u8; 4] = [0, 255, 0, 255];
const CLEAR: [u8; 4] = [0, 0, 0, 0];

/// Lower half rows cross at 3 and 0, upper half rows at 1 and 4.
fn crossings(half: Half, _y: u32) -> (u32, u32) {
    match half {
        Half::Lower => (3, 0),
        Half::Upper => (1, 4),
    }
}

fn shade(x: u32, y: u32) -> (u8, u8, u8) {
    ((x * 10) as u8, (y * 10) as u8, 7)
}

#[test]
fn flat_fill_leaves_out_both_crossings() {
    let r = Renderer::new((5, 5));
    let mut px = vec![0u8; 100];
    let sorted = ((0u32, 4u32), (0u32, 2u32), (0u32, 1u32));
    assert_eq!(r.paint_triangle_raw(sorted, &crossings, &mut px), Ok(()));
    let green = [(1u32, 1u32), (2, 1), (2, 2), (3, 2), (2, 3), (3, 3)];
    for y in 0..5 {
        for x in 0..5 {
            let want = if green.contains(&(x, y)) { GREEN } else { CLEAR };
            assert_eq!(pixel(&px, 5, x, y), want, "pixel {:?}", (x, y));
        }
    }
}

#[test]
fn gradient_fill_takes_the_right_crossing_and_is_opaque() {
    let r = Renderer::new((5, 5));
    let mut px = vec![0u8; 100];
    let sorted = ((0u32, 4u32, 1u8, 2u8, 3u8), (0u32, 2u32, 0u8, 0u8, 0u8), (0u32, 1u32, 9u8, 9u8, 9u8));
    assert_eq!(r.paint_gradient_triangle_raw(sorted, &crossings, &shade, &mut px), Ok(()));
    let filled = [(1u32, 1u32), (2, 1), (3, 1), (2, 2), (3, 2), (4, 2), (2, 3), (3, 3), (4, 3)];
    for y in 0..5 {
        for x in 0..5 {
            let want = if filled.contains(&(x, y)) {
                let (r, g, b) = shade(x, y);
                [r, g, b, 255]
            } else {
                CLEAR
            };
            assert_eq!(pixel(&px, 5, x, y), want, "pixel {:?}", (x, y));
        }
    }
}

#[test]
fn fill_stays_in_the_triangle_rows() {
    let r = Renderer::new((5, 6));
    let mut px = vec![0u8; 120];
    let sorted = ((0u32, 4u32), (0u32, 2u32), (0u32, 1u32));
    assert_eq!(r.paint_triangle_raw(sorted, &|_h: Half, _y: u32| (0u32, 5u32), &mut px), Ok(()));
    assert!(px[..20].iter().all(|b| *b == 0));
    assert!(px[80..].iter().all(|b| *b == 0));
    assert_eq!(pixel(&px, 5, 4, 3), GREEN);
}

#[test]
fn corners_out_of_order_fill_nothing() {
    let r = Renderer::new((5, 5));
    let mut px = vec![0u8; 100];
    let unsorted = ((0u32, 1u32), (0u32, 2u32), (0u32, 4u32));
    assert_eq!(r.paint_triangle_raw(unsorted, &crossings, &mut px), Ok(()));
    assert!(px.iter().all(|b| *b == 0));
}

#[test]
fn crossing_at_the_last_column_is_refused() {
    let r = Renderer::new((5, 5));
    let mut px = vec![0u8; 100];
    let sorted = ((0u32, 3u32), (0u32, 2u32), (0u32, 1u32));
    let edges = |_h: Half, _y: u32| (u32::MAX, u32::MAX);
    assert_eq!(r.paint_triangle_raw(sorted, &edges, &mut px), Err(DrawError::OutOfBounds));
    let sorted5 = ((0u32, 3u32, 0u8, 0u8, 0u8), (0u32, 2u32, 0u8, 0u8, 0u8), (0u32, 1u32, 0u8, 0u8, 0u8));
    assert_eq!(r.paint_gradient_triangle_raw(sorted5, &edges, &shade, &mut px), Err(DrawError::OutOfBounds));
    assert!(px.iter().all(|b| *b == 0));
}

#[test]
fn fill_past_the_buffer_is_refused_and_changes_nothing() {
    let r = Renderer::new((5, 5));
    let mut px = vec![3u8; 100];
    let sorted = ((0u32, 7u32), (0u32, 2u32), (0u32, 1u32));
    assert_eq!(r.paint_triangle_raw(sorted, &crossings, &mut px), Err(DrawError::OutOfBounds));
    assert_eq!(px, vec![3u8; 100]);
}

fn outline() -> Outline {
    Outline { ab: vec![(2, 2)], ac: vec![(0, 3)], bc: vec![] }
}

#[test]
fn raw_triangle_fills_then_outlines() {
    let mut r = Renderer::new((5, 5));
    // corners: a = (0, 1), b = (4, 4), c = (1, 2); ordered: b, c, a
    let points = ((0u32, 1u32), (4u32, 4u32), (1u32, 2u32));
    assert_eq!(r.draw_triangle_raw(points, &crossings, &outline()), Ok(()));
    let px = r.pixels().clone();
    // filled: lower half row 1 at x = 1, 2; upper half rows 2, 3 at x = 2, 3
    assert_eq!(pixel(&px, 5, 2, 1), GREEN);
    assert_eq!(pixel(&px, 5, 3, 3), GREEN);
    // the side from a to b marks a, then b's column on a's row, then (2, 2)
    assert_eq!(pixel(&px, 5, 0, 1), RED);
    assert_eq!(pixel(&px, 5, 4, 1), RED);
    assert_eq!(pixel(&px, 5, 2, 2), BLACK);
    // side a to c marks (1, 1) red over the fill, and (0, 3) black
    assert_eq!(pixel(&px, 5, 1, 1), RED);
    assert_eq!(pixel(&px, 5, 0, 3), BLACK);
    // side b to c marks b and c's column on b's row
    assert_eq!(pixel(&px, 5, 4, 4), RED);
    assert_eq!(pixel(&px, 5, 1, 4), RED);
    assert_eq!(pixel(&px, 5, 3, 2), GREEN);
    assert_eq!(pixel(&px, 5, 0, 0), CLEAR);
}

#[test]
fn raw_triangle_refused_keeps_the_image() {
    let mut r = Renderer::new((5, 5));
    assert_eq!(r.draw_line((4, 0), (4, 0), &vec![]), Ok(()));
    let before = r.pixels().clone();
    let bad = Outline { ab: vec![(9, 9)], ac: vec![], bc: vec![] };
    let points = ((0u32, 1u32), (4u32, 4u32), (1u32, 2u32));
    assert_eq!(r.draw_triangle_raw(points, &crossings, &bad), Err(DrawError::OutOfBounds));
    assert_eq!(r.pixels(), &before);
}

#[test]
fn gradient_triangle_fills_then_outlines() {
    let mut r = Renderer::new((5, 5));
    let points = ((0u32, 1u32, 255u8, 0u8, 0u8), (4u32, 4u32, 0u8, 255u8, 0u8), (1u32, 2u32, 0u8, 0u8, 255u8));
    assert_eq!(r.draw_triangle_gradient(points, &crossings, &shade, &outline()), Ok(()));
    let px = r.pixels().clone();
    assert_eq!(pixel(&px, 5, 3, 1), [30, 10, 7, 255]);
    assert_eq!(pixel(&px, 5, 4, 3), [40, 30, 7, 255]);
    assert_eq!(pixel(&px, 5, 2, 2), BLACK);
    assert_eq!(pixel(&px, 5, 0, 1), RED);
    assert_eq!(pixel(&px, 5, 0, 0), CLEAR);
}

#[test]
fn image_triangle_fills_then_outlines() {
    let mut r = Renderer::new((5, 5));
    let points = ((0u32, 1u32), (4u32, 4u32), (1u32, 2u32));
    let sides = Outline { ab: vec![(2, 2)], ac: vec![(0, 3)], bc: vec![(3, 3)] };
    assert_eq!(r.draw_triangle(points, &crossings, &sides), Ok(()));
    let px = r.pixels().clone();
    assert_eq!(pixel(&px, 5, 1, 1), GREEN);
    assert_eq!(pixel(&px, 5, 2, 3), GREEN);
    assert_eq!(pixel(&px, 5, 0, 1), RED);
    assert_eq!(pixel(&px, 5, 4, 4), RED);
    assert_eq!(pixel(&px, 5, 1, 2), RED);
    assert_eq!(pixel(&px, 5, 2, 2), BLACK);
    assert_eq!(pixel(&px, 5, 3, 3), BLACK);
    assert_eq!(pixel(&px, 5, 4, 1), CLEAR);
}

#[test]
fn image_triangle_keeps_what_was_drawn_before() {
    let mut r = Renderer::new((5, 5));
    assert_eq!(r.draw_line((4, 0), (4, 0), &vec![]), Ok(()));
    let sorted = ((0u32, 4u32), (0u32, 2u32), (0u32, 1u32));
    assert_eq!(r.paint_triangle(sorted, &crossings), Ok(()));
    let px = r.pixels().clone();
    assert_eq!(pixel(&px, 5, 4, 0), RED);
    assert_eq!(pixel(&px, 5, 2, 1), GREEN);
}

#[test]
fn image_triangle_outside_is_refused_and_changes_nothing() {
    let mut r = Renderer::new((4, 5));
    let sorted = ((0u32, 4u32), (0u32, 2u32), (0u32, 1u32));
    // upper rows need column 3 of a 4 wide image: fine; column 4 is not
    assert_eq!(r.paint_triangle(sorted, &|_h: Half, _y: u32| (0u32, 5u32)), Err(DrawError::OutOfBounds));
    assert!(r.pixels().iter().all(|b| *b == 0));
    assert_eq!(r.paint_triangle(sorted, &|_h: Half, _y: u32| (0u32, 4u32)), Ok(()));
    assert_eq!(pixel(r.pixels(), 4, 3, 3), GREEN);
}
