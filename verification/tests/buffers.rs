use rasterizer::color::Color;
use rasterizer::line::raw_line;
use rasterizer::order::order_by_row;
use rasterizer::pixels::{checked_offset, fill_span, path_writable, pixel_offset, plot_path, set_pixel};
use rasterizer::renderer::Renderer;
use rasterizer::triangle::{fill_row, rows_writable, shade_row, triangle_writable, Half};

#[test]
fn offset_is_four_bytes_per_pixel_row_after_row() {
    assert_eq!(pixel_offset(5, 2, 3), 68);
    assert_eq!(checked_offset(100, 5, 2, 3), Some(68));
    assert_eq!(checked_offset(71, 5, 2, 3), None);
    assert_eq!(checked_offset(72, 5, 2, 3), Some(68));
}

#[test]
fn offset_past_u32_is_refused() {
    assert_eq!(checked_offset(usize::MAX, 1 << 16, 0, 1 << 14), None);
    assert_eq!(checked_offset(usize::MAX, 1 << 15, 0, 1 << 15), None);
    assert_eq!(checked_offset(usize::MAX, 1, u32::MAX / 4 + 1, 0), None);
    assert_eq!(checked_offset(usize::MAX, 1, u32::MAX / 4, 0), Some((u32::MAX / 4) as usize * 4));
}

#[test]
fn set_pixel_writes_four_channels() {
    let mut px = vec![0u8; 8];
    set_pixel(&mut px, 2, 1, 0, Color { r: 1, g: 2, b: 3, a: 4 });
    assert_eq!(px, vec![0, 0, 0, 0, 1, 2, 3, 4]);
}

#[test]
fn plotting_keeps_the_last_colour_written() {
    let mut px = vec![0u8; 8];
    plot_path(&mut px, 2, &vec![(0, 0), (1, 0), (0, 0)], Color::green());
    assert_eq!(px, vec![0, 255, 0, 255, 0, 255, 0, 255]);
    assert!(path_writable(8, 2, &vec![(1, 0)]));
    assert!(!path_writable(8, 2, &vec![(1, 0), (0, 1)]));
}

#[test]
fn spans_leave_out_their_end() {
    let mut px = vec![0u8; 16];
    fill_span(&mut px, 4, 0, 1, 3, Color::black());
    assert_eq!(px, vec![0, 0, 0, 0, 0, 0, 0, 255, 0, 0, 0, 255, 0, 0, 0, 0]);
    let mut none = vec![0u8; 16];
    fill_span(&mut none, 4, 0, 3, 1, Color::black());
    assert_eq!(none, vec![0u8; 16]);
}

#[test]
fn rows_fill_strictly_between_crossings_in_either_order() {
    let mut a = vec![0u8; 20];
    let mut b = vec![0u8; 20];
    fill_row(&mut a, 5, 0, (4, 1), Color::green());
    fill_row(&mut b, 5, 0, (1, 4), Color::green());
    assert_eq!(a, b);
    assert_eq!(&a[8..16], &[0, 255, 0, 255, 0, 255, 0, 255]);
    assert!(a[..8].iter().all(|v| *v == 0));
    assert!(a[16..].iter().all(|v| *v == 0));
}

#[test]
fn shaded_rows_include_the_right_crossing() {
    let mut px = vec![0u8; 20];
    shade_row(&mut px, 5, 0, (4, 2), &|x: u32, _y: u32| (x as u8, 0, 0));
    assert_eq!(&px[12..20], &[3, 0, 0, 255, 4, 0, 0, 255]);
    assert!(px[..12].iter().all(|v| *v == 0));
}

#[test]
fn row_checks_report_the_first_bad_row_and_ask_every_row() {
    let asked = std::cell::Cell::new(0u32);
    let edges = |_h: Half, y: u32| {
        asked.set(asked.get() + 1);
        if y == 1 { (0u32, 9u32) } else { (0u32, 2u32) }
    };
    assert!(!rows_writable(40, 5, Half::Lower, 0, 2, &edges, false));
    assert_eq!(asked.get(), 2);
    assert!(rows_writable(40, 5, Half::Lower, 0, 1, &edges, false));
    assert!(triangle_writable(40, 5, (1, 1, 0), &edges, true));
    assert!(!triangle_writable(40, 5, (2, 1, 0), &edges, true));
}

#[test]
fn raw_lines_mark_the_second_end_on_the_first_row() {
    let mut px = vec![0u8; 16];
    raw_line(&mut px, 2, (1, 1), (0, 0), &vec![]);
    assert_eq!(&px[12..16], &[255, 0, 0, 255]);
    assert_eq!(&px[8..12], &[255, 0, 0, 255]);
}

#[test]
fn image_fill_stays_in_the_triangle_rows() {
    let mut r = Renderer::new((5, 6));
    let sorted = order_by_row(((0u32, 1u32), (0u32, 4u32), (0u32, 2u32)));
    assert_eq!(sorted, ((0, 4), (0, 2), (0, 1)));
    assert_eq!(r.paint_triangle(sorted, &|_h: Half, _y: u32| (0u32, 5u32)), Ok(()));
    let px = r.pixels();
    assert!(px[..20].iter().all(|b| *b == 0));
    assert!(px[80..].iter().all(|b| *b == 0));
    assert_eq!(&px[20 + 4..20 + 8], &[0, 255, 0, 255]);
}
