use tree_map_base::actionlog::{action_name, pick_actions, ActionLog, Pick, ACTION_KINDS, ACTION_LOG_CAPACITY};
use tree_map_base::alias::{build_alias_map, AliasKind};
use tree_map_base::display::{cache_needs_rebuild, cell_at, is_drawn, LayoutKey};
use tree_map_base::geometry::LayoutRect;
use tree_map_base::model::Node;
use tree_map_base::treemap::squarified_treemap;
use tree_map_base::typestats::{collect_type_stats, compute_type_stats, sort_type_stats, TypeStat};

fn sample_tree() -> Node {
    let mut root = Node::new("root".to_string(), "/root".to_string(), 0);
    for (path, size) in [
        ("src/main.rs", 300),
        ("src/lib.RS", 200),
        ("src/notes", 50),
        ("docs/guide.md", 120),
        ("docs/img/logo.png", 400),
        ("docs/img/icon.png", 100),
        ("README", 30),
        ("build.gradle", 0),
        ("a.md", 380),
    ] {
        root.insert_relative(path, size);
    }
    root.compute_total_size();
    root.sort_children_by_size_desc();
    root
}

#[test]
fn action_log_keeps_the_newest_entries() {
    let mut log = ActionLog::new();
    assert_eq!(log.len(), 0);
    assert!(log.latest().is_none());
    for i in 0..(ACTION_LOG_CAPACITY as u64 + 25) {
        log.push(i, format!("/p/{i}"), "inspect".to_string());
        assert_eq!(log.len(), ((i + 1) as usize).min(ACTION_LOG_CAPACITY));
        let latest = log.latest().expect("an entry");
        assert_eq!(latest.timestamp_millis, i);
        assert_eq!(latest.target_path, format!("/p/{i}"));
        assert_eq!(latest.action_type, "inspect");
    }
    assert_eq!(ACTION_LOG_CAPACITY, 500);
    assert_eq!(log.len(), 500);
    log.clear();
    assert_eq!(log.len(), 0);
    assert!(log.latest().is_none());
    log.push(7, "/q".to_string(), "trace".to_string());
    assert_eq!(log.len(), 1);
}

#[test]
fn aliases_number_folders_and_files_in_pre_order() {
    let root = sample_tree();
    let aliases = build_alias_map(&root);
    let listing: Vec<(&str, &str, AliasKind)> = aliases
        .iter()
        .map(|alias| (alias.path.as_str(), alias.code.as_str(), alias.kind))
        .collect();
    assert_eq!(
        listing,
        vec![
            ("/root", "A", AliasKind::Folder),
            ("/root/docs", "B", AliasKind::Folder),
            ("/root/docs/img", "C", AliasKind::Folder),
            ("/root/docs/img/logo.png", "A", AliasKind::File),
            ("/root/docs/img/icon.png", "B", AliasKind::File),
            ("/root/docs/guide.md", "C", AliasKind::File),
            ("/root/src", "D", AliasKind::Folder),
            ("/root/src/main.rs", "D", AliasKind::File),
            ("/root/src/lib.RS", "E", AliasKind::File),
            ("/root/src/notes", "F", AliasKind::File),
            ("/root/a.md", "G", AliasKind::File),
            ("/root/README", "H", AliasKind::File),
            ("/root/build.gradle", "I", AliasKind::File),
        ]
    );
    let lone = Node::new("r".to_string(), "/r".to_string(), 0);
    let aliases = build_alias_map(&lone);
    assert_eq!(aliases.len(), 1);
    assert_eq!((aliases[0].code.as_str(), aliases[0].kind), ("A", AliasKind::Folder));
}

#[test]
fn type_stats_add_up_by_extension_largest_first() {
    let root = sample_tree();
    let (stats, total) = compute_type_stats(&root);
    let listing: Vec<(&str, u64, u64)> =
        stats.iter().map(|s| (s.key.as_str(), s.bytes, s.files)).collect();
    assert_eq!(
        listing,
        vec![
            ("md", 500, 2),
            ("png", 500, 2),
            ("rs", 500, 2),
            ("(no_ext)", 80, 2),
            ("gradle", 0, 1),
        ]
    );
    assert_eq!(total, 1580);
    assert_eq!(root.size, 1580);
}

#[test]
fn type_stats_collect_in_the_order_the_files_are_met() {
    let root = sample_tree();
    let mut stats = vec![TypeStat { key: "png".to_string(), bytes: u64::MAX - 10, files: u64::MAX }];
    let mut total = 5;
    collect_type_stats(&root, &mut stats, &mut total);
    let listing: Vec<(&str, u64, u64)> =
        stats.iter().map(|s| (s.key.as_str(), s.bytes, s.files)).collect();
    assert_eq!(
        listing,
        vec![
            ("png", u64::MAX, u64::MAX),
            ("md", 500, 2),
            ("rs", 500, 2),
            ("(no_ext)", 80, 2),
            ("gradle", 0, 1),
        ]
    );
    assert_eq!(total, 1585);
}

#[test]
fn type_stats_sort_by_bytes_then_by_name() {
    let stat = |key: &str, bytes: u64| TypeStat { key: key.to_string(), bytes, files: 1 };
    let sorted = sort_type_stats(vec![
        stat("b", 5),
        stat("a", 5),
        stat("zz", 9),
        stat("", 5),
        stat("ab", 5),
        stat("B", 5),
        stat("\u{e9}", 5),
        stat("z", 9),
        stat("q", 0),
    ]);
    let keys: Vec<(&str, u64)> = sorted.iter().map(|s| (s.key.as_str(), s.bytes)).collect();
    assert_eq!(
        keys,
        vec![
            ("z", 9),
            ("zz", 9),
            ("", 5),
            ("B", 5),
            ("a", 5),
            ("ab", 5),
            ("b", 5),
            ("\u{e9}", 5),
            ("q", 0)
        ]
    );
    assert!(sort_type_stats(Vec::new()).is_empty());
}

#[test]
fn a_layout_is_kept_while_its_key_stays_the_same() {
    let key = LayoutKey {
        scan_generation: 3,
        depth: 8,
        max_nodes: 20_000,
        min_cell: 1000,
        canvas: LayoutRect::new(0, 40_000, 1_200_000, 700_000),
    };
    assert!(cache_needs_rebuild(None, &key));
    assert!(!cache_needs_rebuild(Some(&key), &key));
    let changes: Vec<LayoutKey> = vec![
        LayoutKey { scan_generation: 4, ..key },
        LayoutKey { depth: 7, ..key },
        LayoutKey { max_nodes: 1000, ..key },
        LayoutKey { min_cell: 500, ..key },
        LayoutKey { canvas: LayoutRect::new(1, 40_000, 1_200_000, 700_000), ..key },
        LayoutKey { canvas: LayoutRect::new(0, 40_001, 1_200_000, 700_000), ..key },
        LayoutKey { canvas: LayoutRect::new(0, 40_000, 1_200_001, 700_000), ..key },
        LayoutKey { canvas: LayoutRect::new(0, 40_000, 1_200_000, 699_999), ..key },
    ];
    for changed in &changes {
        assert!(cache_needs_rebuild(Some(&key), changed));
        assert!(cache_needs_rebuild(Some(changed), &key));
    }
}

#[test]
fn the_cell_under_a_point_is_the_deepest_one_drawn() {
    let root = sample_tree();
    let cells = squarified_treemap(&root, LayoutRect::new(0, 0, 800_000, 600_000), 8, 1000);
    assert_eq!(cells.len(), 12);
    assert!(!is_drawn(&cells[0], 1000));
    assert!(is_drawn(&cells[1], 1000));
    assert!(!is_drawn(&cells[1], 700_000));
    assert!(is_drawn(&cells[1], cells[1].rect.w.min(cells[1].rect.h)));
    assert!(!is_drawn(&cells[1], cells[1].rect.w.min(cells[1].rect.h) + 1));
    let drawn: Vec<usize> = (0..cells.len()).filter(|&i| is_drawn(&cells[i], 1000)).collect();
    assert_eq!(drawn, (1..12).collect::<Vec<usize>>());
    let rects: Vec<LayoutRect> = drawn.iter().map(|&i| cells[i].rect).collect();
    for (at, &i) in drawn.iter().enumerate() {
        let cell = &cells[i];
        let x = cell.rect.x + cell.rect.w / 2;
        let y = cell.rect.y + cell.rect.h / 2;
        let found = cell_at(&rects, x, y).expect("a cell");
        assert!(found >= at);
        let hit = &cells[drawn[found]];
        assert!(hit.node.path.starts_with(&cell.node.path));
        assert!(hit.rect.x <= x && x <= hit.rect.x + hit.rect.w);
        assert!(hit.rect.y <= y && y <= hit.rect.y + hit.rect.h);
        if cell.node.children.is_empty() {
            assert_eq!(found, at);
        }
    }
    // In the margin of the root, and outside the canvas, there is nothing drawn.
    assert_eq!(cell_at(&rects, 500, 500), None);
    assert_eq!(cell_at(&rects, -1, 300_000), None);
    assert_eq!(cell_at(&rects, 900_000, 300_000), None);
    assert_eq!(cell_at(&Vec::new(), 0, 0), None);
    // Edges count, and of two rectangles that share an edge the later one wins.
    let pair = vec![LayoutRect::new(0, 0, 10, 10), LayoutRect::new(10, 0, 10, 10)];
    assert_eq!(cell_at(&pair, 10, 5), Some(1));
    assert_eq!(cell_at(&pair, 0, 10), Some(0));
    assert_eq!(cell_at(&pair, 20, 0), Some(1));
    assert_eq!(cell_at(&pair, 21, 0), None);
    let far = vec![LayoutRect::new(i32::MAX, i32::MAX, i32::MAX, i32::MAX)];
    assert_eq!(cell_at(&far, i32::MAX, i32::MAX), Some(0));
}

#[test]
fn simulated_actions_are_drawn_from_the_seed() {
    assert_eq!(ACTION_KINDS, 6);
    let names: Vec<String> = (0..7).map(action_name).collect();
    assert_eq!(
        names,
        vec!["inspect", "classify", "correlate", "trace", "verify", "highlight", "highlight"]
    );
    assert!(pick_actions(12345, 0).is_empty());
    assert_eq!(pick_actions(0, 1).len(), 1);
    assert_eq!(pick_actions(0, 3).len(), 3);
    assert_eq!(pick_actions(0, 6).len(), 6);
    assert_eq!(pick_actions(0, 100_000).len(), 6);
    for (seed, total) in [(0u64, 1usize), (1, 5), (0xA5A5_5A5A_1234_5678, 977), (u64::MAX, 20_000)] {
        let mut expected = Vec::new();
        let mut current = seed;
        for offset in 0..total.min(6) {
            current = (current ^ ((offset as u64 + 1) * 0x9E37_79B9))
                .wrapping_mul(6364136223846793005)
                .wrapping_add(1);
            expected.push(Pick {
                cell: (current as usize) % total,
                kind: (current as usize) % 6,
            });
        }
        assert_eq!(pick_actions(seed, total), expected);
    }
    assert_eq!(pick_actions(0, 10)[0], Pick { cell: 2, kind: 2 });
}
