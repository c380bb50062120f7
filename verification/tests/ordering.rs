use rasterizer::order::order_by_row;

#[test]
fn first_above_second_above_third_keeps_order() {
    let s = order_by_row(((0u32, 9u32), (1u32, 5u32), (2u32, 1u32)));
    assert_eq!(s, ((0, 9), (1, 5), (2, 1)));
}

#[test]
fn first_largest_then_third_then_second() {
    let s = order_by_row(((0u32, 9u32), (1u32, 1u32), (2u32, 5u32)));
    assert_eq!(s, ((0, 9), (2, 5), (1, 1)));
}

#[test]
fn third_largest_then_first_then_second() {
    let s = order_by_row(((0u32, 5u32), (1u32, 1u32), (2u32, 9u32)));
    assert_eq!(s, ((2, 9), (0, 5), (1, 1)));
}

#[test]
fn second_largest_then_first_then_third() {
    let s = order_by_row(((0u32, 5u32), (1u32, 9u32), (2u32, 1u32)));
    assert_eq!(s, ((1, 9), (0, 5), (2, 1)));
}

#[test]
fn second_largest_then_third_then_first() {
    let s = order_by_row(((0u32, 1u32), (1u32, 9u32), (2u32, 5u32)));
    assert_eq!(s, ((1, 9), (2, 5), (0, 1)));
}

#[test]
fn third_largest_then_second_then_first() {
    let s = order_by_row(((0u32, 1u32), (1u32, 5u32), (2u32, 9u32)));
    assert_eq!(s, ((2, 9), (1, 5), (0, 1)));
}

#[test]
fn equal_rows_put_the_later_corner_first() {
    assert_eq!(order_by_row(((0u32, 4u32), (1u32, 4u32), (2u32, 4u32))), ((2, 4), (1, 4), (0, 4)));
    assert_eq!(order_by_row(((0u32, 4u32), (1u32, 4u32), (2u32, 1u32))), ((1, 4), (0, 4), (2, 1)));
    assert_eq!(order_by_row(((0u32, 7u32), (1u32, 4u32), (2u32, 4u32))), ((0, 7), (2, 4), (1, 4)));
    assert_eq!(order_by_row(((0u32, 4u32), (1u32, 1u32), (2u32, 4u32))), ((2, 4), (0, 4), (1, 1)));
}

#[test]
fn coloured_corners_are_ordered_by_row_too() {
    let s = order_by_row(((1u32, 1u32, 255u8, 0u8, 0u8), (1279u32, 719u32, 0u8, 255u8, 0u8), (640u32, 640u32, 0u8, 0u8, 255u8)));
    assert_eq!(
        s,
        ((1279, 719, 0, 255, 0), (640, 640, 0, 0, 255), (1, 1, 255, 0, 0))
    );
}

#[test]
fn listing_order_does_not_matter_when_rows_differ() {
    let (a, b, c) = ((3u32, 7u32), (5u32, 2u32), (1u32, 4u32));
    let want = ((3, 7), (1, 4), (5, 2));
    for t in [(a, b, c), (a, c, b), (b, a, c), (b, c, a), (c, a, b), (c, b, a)] {
        assert_eq!(order_by_row(t), want);
    }
}

#[test]
fn listing_order_decides_between_corners_on_one_row() {
    let (a, b, c) = ((0u32, 4u32), (1u32, 4u32), (2u32, 1u32));
    assert_eq!(order_by_row((a, b, c)), ((1, 4), (0, 4), (2, 1)));
    assert_eq!(order_by_row((b, a, c)), ((0, 4), (1, 4), (2, 1)));
}
