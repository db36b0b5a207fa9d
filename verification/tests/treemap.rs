use tree_map_base::geometry::{LayoutRect, UNITS_PER_PIXEL};
use tree_map_base::model::Node;
use tree_map_base::treemap::{squarified_treemap, TreemapCell};

fn build_root_with_sizes(sizes: &[u64]) -> Node {
    let mut root = Node::new("root".to_string(), "root".to_string(), 0);
    for (index, size) in sizes.iter().enumerate() {
        root.children.push(Node::new(
            format!("child_{index}"),
            format!("root/child_{index}"),
            *size,
        ));
    }
    root.compute_total_size();
    root.sort_children_by_size_desc();
    root
}

#[test]
fn wide_canvas_splits_across_x_axis() {
    let root = build_root_with_sizes(&[500, 250, 125, 64, 32, 16, 8, 4]);
    let bounds = LayoutRect::new(0, 0, 1200 * UNITS_PER_PIXEL, 600 * UNITS_PER_PIXEL);
    let cells = squarified_treemap(&root, bounds, 1, 1024);

    let depth1_cells: Vec<TreemapCell<'_>> =
        cells.into_iter().filter(|cell| cell.depth == 1).collect();
    assert!(depth1_cells.len() >= 4, "expected child cells to be laid out");

    let mut distinct_x = Vec::<i32>::new();
    for cell in depth1_cells {
        let x = (cell.rect.x as f32 / UNITS_PER_PIXEL as f32 * 10.0).round() as i32;
        if !distinct_x.contains(&x) {
            distinct_x.push(x);
        }
    }

    assert!(
        distinct_x.len() > 1,
        "layout should split along x-axis on a wide canvas"
    );
}

#[test]
fn four_siblings_fill_the_padded_canvas_in_proportion() {
    let root = build_root_with_sizes(&[500, 250, 125, 64]);
    let bounds = LayoutRect::new(0, 0, 1200 * UNITS_PER_PIXEL, 600 * UNITS_PER_PIXEL);
    let cells = squarified_treemap(&root, bounds, 1, 1024);
    assert_eq!(cells.len(), 5);
    assert_eq!(cells[0].depth, 0);
    assert_eq!(cells[0].node.name, "root");
    assert_eq!((cells[0].rect.x, cells[0].rect.y), (0, 0));
    assert_eq!((cells[0].rect.w, cells[0].rect.h), (1_200_000, 600_000));

    let inner_area: i128 = 1_198_000 * 598_000;
    let total: i128 = 939;
    let sizes: [i128; 4] = [500, 250, 125, 64];
    let mut covered: i128 = 0;
    for (k, cell) in cells[1..].iter().enumerate() {
        assert_eq!(cell.depth, 1);
        assert_eq!(cell.node.size as i128, sizes[k]);
        let (x, y, w, h) = (
            cell.rect.x as i128,
            cell.rect.y as i128,
            cell.rect.w as i128,
            cell.rect.h as i128,
        );
        assert!(x >= 1000 && y >= 1000 && x + w <= 1_199_000 && y + h <= 599_000);
        let area = w * h;
        assert!(area * total <= inner_area * sizes[k]);
        assert!(inner_area * sizes[k] < (area + w + h + 1) * total);
        covered += area;
    }
    assert!(covered <= inner_area);
    assert!(inner_area - covered < 4 * (1_198_000 + 598_000));

    for a in 1..cells.len() {
        for b in (a + 1)..cells.len() {
            let (p, q) = (cells[a].rect, cells[b].rect);
            let apart = p.x + p.w <= q.x || q.x + q.w <= p.x || p.y + p.h <= q.y || q.y + q.h <= p.y;
            assert!(apart);
        }
    }
    let rects: Vec<_> = cells[1..].iter().map(rect_of).collect();
    assert_eq!(
        rects,
        vec![
            (1000, 1000, 637_912, 598_000),
            (638_912, 1000, 560_088, 340_546),
            (638_912, 341_546, 370_427, 257_454),
            (1_009_339, 341_546, 189_661, 257_450),
        ]
    );
}

fn rect_of(cell: &TreemapCell<'_>) -> (i32, i32, i32, i32) {
    (cell.rect.x, cell.rect.y, cell.rect.w, cell.rect.h)
}

fn nested_tree() -> Node {
    let mut root = Node::new("root".to_string(), "root".to_string(), 0);
    for (path, size) in [
        ("a/x", 400),
        ("a/y", 200),
        ("a/z/deep", 100),
        ("b/p", 150),
        ("b/q", 150),
        ("c", 100),
        ("empty", 0),
    ] {
        root.insert_relative(path, size);
    }
    root.compute_total_size();
    root.sort_children_by_size_desc();
    root
}

#[test]
fn a_rectangle_without_extent_yields_no_cells() {
    let root = build_root_with_sizes(&[5, 3]);
    for bounds in [
        LayoutRect::new(0, 0, 0, 600_000),
        LayoutRect::new(0, 0, 600_000, 0),
        LayoutRect::new(0, 0, -10, 600_000),
        LayoutRect::new(i32::MAX, i32::MAX, 600_000, -1),
        LayoutRect::new(0, 0, 200, 600_000),
        LayoutRect::new(0, 0, 600_000, 200),
    ] {
        assert!(squarified_treemap(&root, bounds, 4, 100).is_empty());
    }
    assert_eq!(squarified_treemap(&root, LayoutRect::new(0, 0, 201, 201), 4, 100).len(), 1);
}

#[test]
fn a_budget_of_zero_yields_no_cells_and_a_small_one_is_kept() {
    let root = nested_tree();
    let bounds = LayoutRect::new(0, 0, 800_000, 600_000);
    assert!(squarified_treemap(&root, bounds, 8, 0).is_empty());
    let all = squarified_treemap(&root, bounds, 8, 1000);
    assert_eq!(all.len(), 10);
    for budget in 1..=10usize {
        let cells = squarified_treemap(&root, bounds, 8, budget);
        assert_eq!(cells.len(), budget);
        for (cell, full) in cells.iter().zip(all.iter()) {
            assert_eq!(rect_of(cell), rect_of(full));
            assert_eq!(cell.depth, full.depth);
            assert_eq!(cell.node.path, full.node.path);
        }
    }
}

#[test]
fn cells_come_in_pre_order_down_to_the_depth_asked_for() {
    let root = nested_tree();
    let bounds = LayoutRect::new(0, 0, 800_000, 600_000);
    let cells = squarified_treemap(&root, bounds, 8, 1000);
    let listing: Vec<(&str, usize)> =
        cells.iter().map(|cell| (cell.node.path.as_str(), cell.depth)).collect();
    assert_eq!(
        listing,
        vec![
            ("root", 0),
            ("root/a", 1),
            ("root/a/x", 2),
            ("root/a/y", 2),
            ("root/a/z", 2),
            ("root/a/z/deep", 3),
            ("root/b", 1),
            ("root/b/p", 2),
            ("root/b/q", 2),
            ("root/c", 1),
        ]
    );
    let shallow = squarified_treemap(&root, bounds, 1, 1000);
    let listing: Vec<(&str, usize)> =
        shallow.iter().map(|cell| (cell.node.path.as_str(), cell.depth)).collect();
    assert_eq!(listing, vec![("root", 0), ("root/a", 1), ("root/b", 1), ("root/c", 1)]);
    let flat = squarified_treemap(&root, bounds, 0, 1000);
    assert_eq!(flat.len(), 1);
    assert_eq!(rect_of(&flat[0]), (0, 0, 800_000, 600_000));
}

#[test]
fn every_cell_lies_within_its_parent_less_the_margin_and_apart_from_its_siblings() {
    let root = nested_tree();
    let bounds = LayoutRect::new(-300_000, 50_000, 800_000, 600_000);
    let cells = squarified_treemap(&root, bounds, 8, 1000);
    assert_eq!(cells.len(), 10);
    let parent_of = |i: usize| (0..i).rev().find(|&j| cells[j].depth + 1 == cells[i].depth);
    for i in 1..cells.len() {
        let p = parent_of(i).expect("a parent");
        assert!(cells[i].node.path.starts_with(&format!("{}/", cells[p].node.path)));
        let (px, py, pw, ph) = rect_of(&cells[p]);
        let (x, y, w, h) = rect_of(&cells[i]);
        assert!(w > 200 && h > 200);
        assert!(px + 1000 <= x && py + 1000 <= y);
        assert!(x + w <= px + pw - 1000 && y + h <= py + ph - 1000);
        for j in (i + 1)..cells.len() {
            if parent_of(j) == Some(p) {
                let (ox, oy, ow, oh) = rect_of(&cells[j]);
                assert!(x + w <= ox || ox + ow <= x || y + h <= oy || oy + oh <= y);
            }
        }
    }
}

#[test]
fn exact_cells_of_a_small_layout() {
    let root = build_root_with_sizes(&[3, 1]);
    let cells = squarified_treemap(&root, LayoutRect::new(0, 0, 10_000, 6_000), 3, 10);
    let got: Vec<_> = cells.iter().map(|c| (rect_of(c), c.depth, c.node.size)).collect();
    // Inner rectangle 8000 x 4000 at (1000, 1000); areas 24000000 and 8000000.
    assert_eq!(
        got,
        vec![
            ((0, 0, 10_000, 6_000), 0, 4),
            ((1000, 1000, 6000, 4000), 1, 3),
            ((7000, 1000, 2000, 4000), 1, 1),
        ]
    );
}

#[test]
fn children_too_small_to_show_get_no_cell() {
    let root = build_root_with_sizes(&[1_000_000, 1]);
    let cells = squarified_treemap(&root, LayoutRect::new(0, 0, 100_000, 100_000), 3, 10);
    assert_eq!(cells.len(), 2);
    assert_eq!(cells[1].node.size, 1_000_000);
    // Too narrow for a margin: the root alone.
    let cells = squarified_treemap(&root, LayoutRect::new(0, 0, 2_200, 100_000), 3, 10);
    assert_eq!(cells.len(), 1);
}

#[test]
fn the_children_of_a_cell_cover_no_more_than_the_cell_less_its_margin() {
    let root = nested_tree();
    let bounds = LayoutRect::new(0, 0, 800_000, 600_000);
    for budget in [1usize, 2, 3, 5, 8, 10, 1000] {
        let cells = squarified_treemap(&root, bounds, 8, budget);
        let parent_of = |i: usize| (0..i).rev().find(|&j| cells[j].depth + 1 == cells[i].depth);
        for p in 0..cells.len() {
            let inner_w = (cells[p].rect.w as i64 - 2000).max(0);
            let inner_h = (cells[p].rect.h as i64 - 2000).max(0);
            let covered: i64 = (0..cells.len())
                .filter(|&i| parent_of(i) == Some(p))
                .map(|i| cells[i].rect.w as i64 * cells[i].rect.h as i64)
                .sum();
            assert!(covered <= inner_w * inner_h);
        }
    }
}
