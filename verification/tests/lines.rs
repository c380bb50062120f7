use rasterizer::pixels::DrawError;
use rasterizer::renderer::{draw_line, Renderer};

fn pixel(bytes: &[u8], width: u32, x: u32, y: u32) -> [u8; 4] {
    let i = (x * 4 + width * y * 4) as usize;
    [bytes[i], bytes[i + 1], bytes[i + 2], bytes[i + 3]]
}

const RED: [u8; 4] = [255, 0, 0, 255];
const BLACK: [u8; 4] = [0, 0, 0, 255];
const CLEAR: [u8; 4] = [0, 0, 0, 0];

#[test]
fn new_renderer_is_blank() {
    let r = Renderer::new((3, 2));
    assert_eq!(r.width(), 3);
    assert_eq!(r.height(), 2);
    assert_eq!(r.pixels().len(), 24);
    assert!(r.pixels().iter().all(|b| *b == 0));
}

#[test]
fn raw_line_marks_second_end_on_first_row() {
    let r = Renderer::new((4, 3));
    let mut px = vec![0u8; 48];
    let path = vec![(1u32, 1u32), (2u32, 1u32)];
    assert_eq!(r.draw_line_raw((0, 0), (3, 2), &path, &mut px), Ok(()));
    assert_eq!(pixel(&px, 4, 0, 0), RED);
    // the second mark goes to column 3 of row 0, not to (3, 2)
    assert_eq!(pixel(&px, 4, 3, 0), RED);
    assert_eq!(pixel(&px, 4, 3, 2), CLEAR);
    assert_eq!(pixel(&px, 4, 1, 1), BLACK);
    assert_eq!(pixel(&px, 4, 2, 1), BLACK);
    let touched = [(0u32, 0u32), (3, 0), (1, 1), (2, 1)];
    for y in 0..3 {
        for x in 0..4 {
            if !touched.contains(&(x, y)) {
                assert_eq!(pixel(&px, 4, x, y), CLEAR);
            }
        }
    }
}

#[test]
fn raw_line_path_overwrites_end_marks() {
    let r = Renderer::new((2, 2));
    let mut px = vec![0u8; 16];
    let path = vec![(0u32, 0u32)];
    assert_eq!(r.draw_line_raw((0, 0), (1, 1), &path, &mut px), Ok(()));
    assert_eq!(pixel(&px, 2, 0, 0), BLACK);
    assert_eq!(pixel(&px, 2, 1, 0), RED);
}

#[test]
fn raw_line_column_past_width_wraps_to_next_row() {
    let r = Renderer::new((2, 2));
    let mut px = vec![0u8; 16];
    let path = vec![(2u32, 0u32)];
    assert_eq!(r.draw_line_raw((0, 0), (0, 1), &path, &mut px), Ok(()));
    assert_eq!(pixel(&px, 2, 0, 1), BLACK);
}

#[test]
fn raw_line_outside_buffer_is_refused_and_changes_nothing() {
    let r = Renderer::new((2, 2));
    let mut px = vec![7u8; 16];
    let path = vec![(0u32, 0u32), (1u32, 2u32)];
    assert_eq!(r.draw_line_raw((0, 0), (1, 1), &path, &mut px), Err(DrawError::OutOfBounds));
    assert_eq!(px, vec![7u8; 16]);
}

#[test]
fn raw_line_offset_overflowing_u32_is_refused() {
    let r = Renderer::new((2, 2));
    let mut px = vec![0u8; 16];
    let path = vec![(1u32 << 30, 0u32)];
    assert_eq!(r.draw_line_raw((0, 0), (1, 1), &path, &mut px), Err(DrawError::OutOfBounds));
    assert_eq!(px, vec![0u8; 16]);
}

#[test]
fn draw_replaces_the_image() {
    let mut r = Renderer::new((3, 3));
    assert_eq!(r.draw_line((2, 2), (2, 2), &vec![]), Ok(()));
    assert_eq!(pixel(r.pixels(), 3, 2, 2), RED);
    assert_eq!(r.draw((0, 0), (1, 2), &vec![(1, 1)]), Ok(()));
    assert_eq!(r.width(), 3);
    assert_eq!(r.height(), 3);
    let px = r.pixels().clone();
    assert_eq!(px.len(), 36);
    assert_eq!(pixel(&px, 3, 0, 0), RED);
    assert_eq!(pixel(&px, 3, 1, 0), RED);
    assert_eq!(pixel(&px, 3, 1, 1), BLACK);
    // what was drawn before is gone
    assert_eq!(pixel(&px, 3, 2, 2), CLEAR);
}

#[test]
fn refused_draw_keeps_the_image() {
    let mut r = Renderer::new((3, 3));
    assert_eq!(r.draw_line((1, 1), (1, 1), &vec![]), Ok(()));
    let before = r.pixels().clone();
    assert_eq!(r.draw((0, 0), (1, 2), &vec![(0, 3)]), Err(DrawError::OutOfBounds));
    assert_eq!(r.pixels(), &before);
}

#[test]
fn image_line_marks_both_ends_then_path() {
    let mut r = Renderer::new((4, 3));
    assert_eq!(r.draw_line((0, 0), (3, 2), &vec![(1, 1), (2, 1), (3, 2)]), Ok(()));
    let px = r.pixels().clone();
    assert_eq!(pixel(&px, 4, 0, 0), RED);
    assert_eq!(pixel(&px, 4, 3, 2), BLACK);
    assert_eq!(pixel(&px, 4, 1, 1), BLACK);
    assert_eq!(pixel(&px, 4, 2, 1), BLACK);
    assert_eq!(pixel(&px, 4, 3, 0), CLEAR);
}

#[test]
fn image_line_keeps_other_pixels() {
    let mut r = Renderer::new((3, 3));
    assert_eq!(r.draw_line((0, 0), (2, 0), &vec![(1, 0)]), Ok(()));
    let px = r.pixels().clone();
    for y in 1..3 {
        for x in 0..3 {
            assert_eq!(pixel(&px, 3, x, y), CLEAR);
        }
    }
}

#[test]
fn image_line_outside_is_refused_and_changes_nothing() {
    let mut r = Renderer::new((3, 3));
    assert_eq!(r.draw_line((0, 0), (1, 1), &vec![(1, 3)]), Err(DrawError::OutOfBounds));
    assert!(r.pixels().iter().all(|b| *b == 0));
}

#[test]
fn free_line_passes_over_pixels_below_the_image() {
    let canvas = draw_line((0, 0), (319, 239), &vec![(5, 239), (6, 240), (400, 1000)]).unwrap();
    assert_eq!(canvas.width(), 320);
    assert_eq!(canvas.height(), 240);
    let px = canvas.pixels();
    assert_eq!(px.len(), 320 * 240 * 4);
    assert_eq!(pixel(px, 320, 0, 0), RED);
    assert_eq!(pixel(px, 320, 319, 239), RED);
    assert_eq!(pixel(px, 320, 5, 239), BLACK);
    let set = px.chunks(4).filter(|p| p[3] != 0).count();
    assert_eq!(set, 3);
}

#[test]
fn free_line_refuses_path_columns_past_the_image() {
    assert_eq!(draw_line((0, 0), (1, 1), &vec![(320, 10)]).err(), Some(DrawError::OutOfBounds));
}
