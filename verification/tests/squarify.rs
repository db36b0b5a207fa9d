use tree_map_base::geometry::LayoutRect;
use tree_map_base::squarify::{keeps_worst_ratio, layout_row, squarify_items};
use tree_map_base::wide::{product_le, wide_mul};

fn quad(rect: &LayoutRect) -> (i32, i32, i32, i32) {
    (rect.x, rect.y, rect.w, rect.h)
}

#[test]
fn rect_area_side_and_shrink() {
    let rect = LayoutRect::new(10, 20, 300, 200);
    assert_eq!(rect.area(), 60_000);
    assert_eq!(rect.shortest_side(), 200);
    assert_eq!(quad(&rect.shrink(50)), (60, 70, 200, 100));
    assert_eq!(quad(&rect.shrink(120)), (130, 140, 60, 0));
    assert_eq!(LayoutRect::new(0, 0, -5, 7).area(), 0);
    assert_eq!(LayoutRect::new(0, 0, -5, 7).shortest_side(), -5);
    assert_eq!(LayoutRect::new(0, 0, i32::MAX, i32::MAX).area(), 0x3fff_ffff_0000_0001);
}

#[test]
fn wide_products_are_exact() {
    let big: u128 = (1u128 << 124) - 1;
    let product = wide_mul(big, big);
    assert_eq!(product.hi, (1u128 << 120) - 1);
    assert_eq!(product.lo, (0xeu128 << 124) + 1);
    let small = wide_mul(3, 5);
    assert_eq!((small.hi, small.lo), (0, 15));
    assert!(product_le(big, big - 1, big, big));
    assert!(!product_le(big, big, big, big - 1));
    assert!(product_le(big, big, big, big));
    assert!(product_le(0, big, 0, 1));
    assert!(product_le(1u128 << 100, 1u128 << 100, 1u128 << 101, 1u128 << 99));
    assert!(!product_le((1u128 << 100) + 1, 1u128 << 100, 1u128 << 101, 1u128 << 99));
}

#[test]
fn a_row_takes_an_item_that_does_not_worsen_its_ratio() {
    // Side 600: a row of area 240000 is 400 thick; one item in it is 400 x 600: ratio 3/2.
    // With a second item of 120000 the row is 600 thick, the items 600 x 400 and 600 x 200,
    // worst ratio 3: worse.
    assert!(!keeps_worst_ratio(240_000, 240_000, 240_000, 120_000, 600));
    // Side 1000: one item of 200000 is 200 x 1000: ratio 5. With a second of 200000 the
    // items are 400 x 500: ratio 5/4: better.
    assert!(keeps_worst_ratio(200_000, 200_000, 200_000, 200_000, 1000));
    // Equal ratios count as not worse.
    assert!(keeps_worst_ratio(0, 0, 0, 0, 10));
    assert!(keeps_worst_ratio(5, 0, 5, 0, 10));
    assert!(!keeps_worst_ratio(5, 5, 5, 0, 10));
}

#[test]
fn a_row_in_a_wide_rectangle_is_a_column_at_the_left() {
    let areas: Vec<u64> = vec![30_000, 20_000, 10_000];
    let mut out = Vec::new();
    let rest = layout_row(&areas, 0, 3, 60_000, LayoutRect::new(5, 7, 400, 300), &mut out);
    let rects: Vec<_> = out.iter().map(quad).collect();
    assert_eq!(rects, vec![(5, 7, 200, 150), (5, 157, 200, 100), (5, 257, 200, 50)]);
    assert_eq!(quad(&rest), (205, 7, 200, 300));
}

#[test]
fn a_row_in_a_tall_rectangle_is_a_band_at_the_top() {
    let areas: Vec<u64> = vec![7, 30_000, 10_000];
    let mut out = vec![LayoutRect::new(1, 1, 1, 1)];
    let rest = layout_row(&areas, 1, 3, 40_000, LayoutRect::new(0, 0, 200, 500), &mut out);
    let rects: Vec<_> = out.iter().map(quad).collect();
    assert_eq!(rects, vec![(1, 1, 1, 1), (0, 0, 150, 200), (150, 0, 50, 200)]);
    assert_eq!(quad(&rest), (0, 200, 200, 300));
}

#[test]
fn row_lengths_round_down() {
    let areas: Vec<u64> = vec![10, 10, 10];
    let mut out = Vec::new();
    let rest = layout_row(&areas, 0, 3, 30, LayoutRect::new(0, 0, 10, 10), &mut out);
    let rects: Vec<_> = out.iter().map(quad).collect();
    assert_eq!(rects, vec![(0, 0, 3, 3), (0, 3, 3, 3), (0, 6, 3, 3)]);
    assert_eq!(quad(&rest), (3, 0, 7, 10));
}

#[test]
fn squarify_packs_the_classic_example() {
    // Areas 6 6 4 3 2 2 1 into 6 x 4, scaled by 1000 in each direction: a column of two,
    // a band of two, two columns of one, and what is left for the last.
    let areas: Vec<u64> =
        [6u64, 6, 4, 3, 2, 2, 1].iter().map(|a| a * 1_000_000).collect();
    let rects = squarify_items(&areas, LayoutRect::new(0, 0, 6000, 4000));
    let got: Vec<_> = rects.iter().map(quad).collect();
    assert_eq!(
        got,
        vec![
            (0, 0, 3000, 2000),
            (0, 2000, 3000, 2000),
            (3000, 0, 1714, 2333),
            (4714, 0, 1285, 2333),
            (3000, 2333, 1199, 1667),
            (4199, 2333, 1199, 1667),
            (5398, 2333, 602, 1661),
        ]
    );
}

#[test]
fn squarify_places_nothing_for_no_areas_and_empty_rects_for_zero_areas() {
    assert!(squarify_items(&Vec::new(), LayoutRect::new(0, 0, 10, 10)).is_empty());
    let rects = squarify_items(&vec![0, 0], LayoutRect::new(3, 4, 10, 10));
    let got: Vec<_> = rects.iter().map(quad).collect();
    assert_eq!(got, vec![(3, 4, 0, 0), (3, 4, 0, 0)]);
    let rects = squarify_items(&vec![50, 0, 0], LayoutRect::new(0, 0, 10, 10));
    let got: Vec<_> = rects.iter().map(quad).collect();
    assert_eq!(got, vec![(0, 0, 5, 10), (5, 0, 0, 0), (5, 0, 0, 0)]);
}

#[test]
fn a_row_is_measured_against_the_shorter_side_however_short() {
    // Two areas of a quarter square pixel in half a pixel by one pixel: against the shorter
    // side the first alone is square, with the second the ratio would be 4.
    let rects = squarify_items(&vec![250_000, 250_000], LayoutRect::new(0, 0, 500, 1000));
    let got: Vec<_> = rects.iter().map(quad).collect();
    assert_eq!(got, vec![(0, 0, 500, 500), (0, 500, 500, 500)]);
    assert!(!keeps_worst_ratio(250_000, 250_000, 250_000, 250_000, 500));
    assert!(keeps_worst_ratio(250_000, 250_000, 250_000, 250_000, 1000));
    // A side of no length gives an unbounded ratio, which nothing makes larger.
    assert!(keeps_worst_ratio(5, 5, 5, 0, 0));
    assert!(keeps_worst_ratio(5, 5, 5, 7, 0));
    assert!(keeps_worst_ratio(5, 5, 5, 7, -3));
    let rects = squarify_items(&vec![0, 0, 0], LayoutRect::new(0, 0, 0, 1000));
    assert_eq!(rects.len(), 3);
}

#[test]
fn a_row_larger_than_the_bounds_leaves_nothing_over() {
    let areas: Vec<u64> = vec![16_000_000];
    let mut out = Vec::new();
    let rest = layout_row(&areas, 0, 1, 16_000_000, LayoutRect::new(0, 0, 2000, 4000), &mut out);
    let rects: Vec<_> = out.iter().map(quad).collect();
    assert_eq!(rects, vec![(0, 0, 2000, 8000)]);
    assert_eq!(quad(&rest), (0, 8000, 2000, 0));
    let mut out = Vec::new();
    let rest = layout_row(&areas, 0, 1, 16_000_000, LayoutRect::new(0, 0, 4000, 2000), &mut out);
    let rects: Vec<_> = out.iter().map(quad).collect();
    assert_eq!(rects, vec![(0, 0, 8000, 2000)]);
    assert_eq!(quad(&rest), (8000, 0, 0, 2000));
}
