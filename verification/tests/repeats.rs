use rasterizer::renderer::Renderer;
use rasterizer::triangle::Half;

fn crossings(half: Half, y: u32) -> (u32, u32) {
    match half {
        Half::Lower => (4, 1 + y % 2),
        Half::Upper => (y, 5),
    }
}

#[test]
fn raw_line_drawn_twice_is_drawn_once() {
    let r = Renderer::new((4, 4));
    let path = vec![(1u32, 1u32), (2, 2), (5, 1), (0, 0)];
    let mut once = vec![9u8; 64];
    assert_eq!(r.draw_line_raw((0, 0), (3, 3), &path, &mut once), Ok(()));
    let mut twice = once.clone();
    assert_eq!(r.draw_line_raw((0, 0), (3, 3), &path, &mut twice), Ok(()));
    assert_eq!(once, twice);
}

#[test]
fn image_line_drawn_twice_is_drawn_once() {
    let mut r = Renderer::new((4, 4));
    let path = vec![(1u32, 1u32), (2, 2), (3, 3)];
    assert_eq!(r.draw_line((0, 0), (3, 3), &path), Ok(()));
    let once = r.pixels().clone();
    assert_eq!(r.draw_line((0, 0), (3, 3), &path), Ok(()));
    assert_eq!(r.pixels(), &once);
}

#[test]
fn triangle_filled_twice_is_filled_once() {
    let mut r = Renderer::new((6, 6));
    let sorted = ((0u32, 5u32), (0u32, 3u32), (0u32, 1u32));
    assert_eq!(r.paint_triangle(sorted, &crossings), Ok(()));
    let once = r.pixels().clone();
    assert_eq!(r.paint_triangle(sorted, &crossings), Ok(()));
    assert_eq!(r.pixels(), &once);
}

#[test]
fn raw_fill_of_the_image_bytes_equals_the_image_fill() {
    let mut r = Renderer::new((6, 6));
    assert_eq!(r.draw_line((5, 0), (0, 5), &vec![(2, 3)]), Ok(()));
    let mut raw = r.pixels().clone();
    let sorted = ((0u32, 5u32), (0u32, 3u32), (0u32, 1u32));
    assert_eq!(r.paint_triangle_raw(sorted, &crossings, &mut raw), Ok(()));
    assert_eq!(r.paint_triangle(sorted, &crossings), Ok(()));
    assert_eq!(r.pixels(), &raw);
}

#[test]
fn gradient_fill_adds_the_right_crossings_to_the_flat_fill() {
    let r = Renderer::new((6, 6));
    let flat_corners = ((0u32, 5u32), (0u32, 3u32), (0u32, 1u32));
    let gradient_corners = ((0u32, 5u32, 0u8, 0u8, 0u8), (0u32, 3u32, 0u8, 0u8, 0u8), (0u32, 1u32, 0u8, 0u8, 0u8));
    let mut flat = vec![0u8; 144];
    let mut grad = vec![0u8; 144];
    assert_eq!(r.paint_triangle_raw(flat_corners, &crossings, &mut flat), Ok(()));
    let shade = |x: u32, y: u32| (x as u8, y as u8, 1u8);
    assert_eq!(r.paint_gradient_triangle_raw(gradient_corners, &crossings, &shade, &mut grad), Ok(()));
    for y in 0..6u32 {
        for x in 0..6u32 {
            let i = (x * 4 + 6 * y * 4) as usize;
            let in_flat = flat[i..i + 4] == [0, 255, 0, 255];
            let half = if y < 3 { Half::Lower } else { Half::Upper };
            let (x1, x2) = crossings(half, y);
            let right_end = (1..5).contains(&y) && x1 != x2 && x == x1.max(x2);
            assert_eq!(grad[i + 3] == 255, in_flat || right_end, "pixel {:?}", (x, y));
            if grad[i + 3] == 255 {
                assert_eq!(&grad[i..i + 3], &[x as u8, y as u8, 1]);
            }
        }
    }
}
