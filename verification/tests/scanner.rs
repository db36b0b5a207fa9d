use tree_map_base::scanner::{
    access_warning_text, check_root, format_walkdir_error, metadata_warning_text,
    next_generation, receive, update_scan_progress_metrics, Next, Polled, Received, Scan,
    ScanConfig, ScanMessage, ScanPhase, ScanProgress, ScanStats, WalkEntry,
};

fn config(max_files: Option<usize>, progress_interval: usize) -> ScanConfig {
    ScanConfig { max_depth: 8, max_files, progress_interval }
}

fn file(path: &str, relative: &str, size: u64) -> WalkEntry {
    WalkEntry {
        depth: relative.split('/').count(),
        is_dir: false,
        path: path.to_string(),
        relative: Some(relative.to_string()),
        size: Ok(size),
    }
}

fn dir(path: &str, relative: &str) -> WalkEntry {
    WalkEntry {
        depth: relative.split('/').count(),
        is_dir: true,
        path: path.to_string(),
        relative: Some(relative.to_string()),
        size: Ok(4096),
    }
}

fn root_entry(path: &str) -> WalkEntry {
    WalkEntry {
        depth: 0,
        is_dir: true,
        path: path.to_string(),
        relative: Some(String::new()),
        size: Ok(0),
    }
}

#[test]
fn defaults() {
    let config = ScanConfig::default();
    assert_eq!(config.max_depth, 64);
    assert_eq!(config.max_files, Some(250_000));
    assert_eq!(config.progress_interval, 400);
    assert_eq!(ScanPhase::default(), ScanPhase::Counting);
    let stats = ScanStats::default();
    assert_eq!(
        (stats.entries_scanned, stats.files_scanned, stats.directories_scanned, stats.warnings),
        (0, 0, 0, 0)
    );
    assert!(!stats.truncated);
    assert_eq!(stats.estimated_total_entries, None);
    assert_eq!(stats.elapsed_nanos, 0);
}

#[test]
fn counting_walk_counts_entries_files_and_directories() {
    let config = config(None, 3);
    let mut progress = ScanProgress::start(ScanPhase::Counting);
    assert_eq!(progress.count_entry(&config, 0, true, "/r".to_string()), Next::Continue);
    assert_eq!(progress.count_entry(&config, 1, true, "/r/a".to_string()), Next::Continue);
    assert_eq!(progress.count_entry(&config, 2, false, "/r/a/x".to_string()), Next::Report);
    assert_eq!(progress.count_entry(&config, 2, false, "/r/a/y".to_string()), Next::Continue);
    assert_eq!(progress.count_failure(&config), Next::Continue);
    assert_eq!(progress.entries_scanned, 4);
    assert_eq!(progress.files_scanned, 2);
    assert_eq!(progress.directories_scanned, 1);
    assert_eq!(progress.warnings, 1);
    assert!(!progress.truncated);
    assert_eq!(progress.current_path.as_deref(), Some("/r/a/y"));
    assert_eq!(progress.phase, ScanPhase::Counting);
    assert_eq!(progress.finish_counting(), 4);
    assert_eq!(progress.total_estimated_entries, Some(4));
}

#[test]
fn a_report_is_due_at_every_multiple_of_the_interval() {
    let config = config(None, 2);
    let mut progress = ScanProgress::start(ScanPhase::Counting);
    let mut reports = Vec::new();
    for i in 0..7 {
        reports.push(progress.count_entry(&config, 1, false, format!("/r/{i}")));
    }
    assert_eq!(
        reports,
        vec![
            Next::Continue,
            Next::Report,
            Next::Continue,
            Next::Report,
            Next::Continue,
            Next::Report,
            Next::Continue
        ]
    );
    assert_eq!(progress.count_failure(&config), Next::Continue);
    assert_eq!(progress.count_entry(&config, 1, false, "/r/7".to_string()), Next::Report);
    assert_eq!(progress.count_failure(&config), Next::Report);
    // The root never triggers a report, an interval of zero counts as one.
    let every = ScanConfig { max_depth: 1, max_files: None, progress_interval: 0 };
    let mut progress = ScanProgress::start(ScanPhase::Counting);
    assert_eq!(progress.count_entry(&every, 0, true, "/r".to_string()), Next::Continue);
    assert_eq!(progress.count_entry(&every, 1, true, "/r/a".to_string()), Next::Report);
    assert_eq!(progress.count_failure(&every), Next::Report);
}

#[test]
fn an_empty_walk_estimates_one_entry() {
    let mut progress = ScanProgress::start(ScanPhase::Counting);
    assert_eq!(progress.finish_counting(), 1);
    assert_eq!(progress.total_estimated_entries, Some(1));
    assert_eq!(progress.entries_scanned, 0);
}

#[test]
fn the_file_limit_stops_the_walk_and_marks_it_truncated() {
    let config = config(Some(3), 100);
    let mut progress = ScanProgress::start(ScanPhase::Counting);
    assert_eq!(progress.count_entry(&config, 0, true, "/r".to_string()), Next::Continue);
    let mut outcomes = Vec::new();
    for i in 0..5 {
        let next = progress.count_entry(&config, 1, false, format!("/r/{i}"));
        outcomes.push(next);
        if next == Next::Stop {
            break;
        }
        assert_eq!(progress.count_entry(&config, 1, true, format!("/r/d{i}")), Next::Continue);
    }
    assert_eq!(outcomes, vec![Next::Continue, Next::Continue, Next::Continue, Next::Stop]);
    assert_eq!(progress.files_scanned, 3);
    assert!(progress.truncated);
    assert_eq!(progress.entries_scanned, 8);
    assert_eq!(progress.directories_scanned, 3);
}

#[test]
fn as_many_files_as_the_limit_are_not_truncated() {
    let config = config(Some(3), 100);
    let mut scan = Scan::begin("r".to_string(), "/r".to_string(), 4);
    assert_eq!(scan.entry(&config, root_entry("/r")), Next::Continue);
    for name in ["a", "b", "c"] {
        assert_eq!(scan.entry(&config, file(&format!("/r/{name}"), name, 1)), Next::Continue);
    }
    assert!(!scan.progress.truncated);
    assert_eq!(scan.progress.files_scanned, 3);
    assert_eq!(scan.entry(&config, dir("/r/d", "d")), Next::Continue);
    assert!(!scan.progress.truncated);
    assert_eq!(scan.entry(&config, file("/r/e", "e", 1)), Next::Stop);
    assert!(scan.progress.truncated);
    assert_eq!(scan.progress.files_scanned, 3);
    assert_eq!(scan.root.children.len(), 4);
    let (result, last) = scan.finish();
    assert!(result.stats.truncated);
    assert_eq!(result.stats.files_scanned, 3);
    assert_eq!(result.stats.entries_scanned, 6);
    assert_eq!(result.root.size, 3);
    assert!(last.truncated);
}

#[test]
fn second_walk_builds_the_tree_and_collects_warnings() {
    let config = config(None, 2);
    let mut scan = Scan::begin("r".to_string(), "/r".to_string(), 6);
    assert_eq!(scan.progress.phase, ScanPhase::Scanning);
    assert_eq!(scan.progress.total_estimated_entries, Some(6));
    assert_eq!(scan.progress.progress_permille, Some(0));
    assert_eq!(scan.entry(&config, root_entry("/r")), Next::Continue);
    assert_eq!(scan.entry(&config, dir("/r/a", "a")), Next::Report);
    assert_eq!(scan.entry(&config, file("/r/a/x", "a/x", 10)), Next::Continue);
    let unreadable = WalkEntry {
        depth: 2,
        is_dir: false,
        path: "/r/a/y".to_string(),
        relative: Some("a/y".to_string()),
        size: Err("permission denied".to_string()),
    };
    assert_eq!(scan.entry(&config, unreadable), Next::Report);
    let outside = WalkEntry {
        depth: 1,
        is_dir: false,
        path: "/elsewhere".to_string(),
        relative: None,
        size: Ok(99),
    };
    assert_eq!(scan.entry(&config, outside), Next::Continue);
    assert_eq!(scan.failure(&config, "Could not access /r/b: denied".to_string()), Next::Continue);
    assert_eq!(scan.entry(&config, file("/r/z", "z", 30)), Next::Report);
    assert_eq!(scan.progress.entries_scanned, 6);
    assert_eq!(scan.progress.files_scanned, 4);
    assert_eq!(scan.progress.directories_scanned, 1);
    assert_eq!(scan.progress.warnings, 2);
    assert_eq!(
        scan.warnings,
        vec![
            "Could not read metadata for /r/a/y: permission denied".to_string(),
            "Could not access /r/b: denied".to_string()
        ]
    );
    assert_eq!(scan.progress.current_path.as_deref(), Some("/r/z"));

    let shown = scan.report(2_000_000_000);
    assert_eq!(shown.progress_permille, Some(999));
    assert_eq!(shown.remaining_estimated_entries, Some(0));
    assert_eq!(shown.eta_nanos, Some(0));
    assert_eq!(shown.entries_scanned, 6);
    assert_eq!(shown.current_path.as_deref(), Some("/r/z"));

    let (result, last) = scan.finish();
    assert_eq!(last.progress_permille, Some(1000));
    assert_eq!(last.remaining_estimated_entries, Some(0));
    assert_eq!(last.eta_nanos, Some(0));
    assert_eq!(result.root.size, 40);
    let names: Vec<(&str, u64)> =
        result.root.children.iter().map(|c| (c.name.as_str(), c.size)).collect();
    assert_eq!(names, vec![("z", 30), ("a", 10)]);
    let inner: Vec<(&str, u64, &str)> = result.root.children[1]
        .children
        .iter()
        .map(|c| (c.name.as_str(), c.size, c.path.as_str()))
        .collect();
    assert_eq!(inner, vec![("x", 10, "/r/a/x"), ("y", 0, "/r/a/y")]);
    assert_eq!(result.stats.entries_scanned, 6);
    assert_eq!(result.stats.files_scanned, 4);
    assert_eq!(result.stats.directories_scanned, 1);
    assert_eq!(result.stats.warnings, 2);
    assert!(!result.stats.truncated);
    assert_eq!(result.stats.estimated_total_entries, Some(6));
    assert_eq!(result.stats.elapsed_nanos, 0);
    assert_eq!(result.warnings.len(), 2);
}

#[test]
fn an_estimate_of_zero_counts_as_one() {
    let scan = Scan::begin("r".to_string(), "/r".to_string(), 0);
    assert_eq!(scan.progress.total_estimated_entries, Some(1));
    assert!(scan.warnings.is_empty());
    assert!(scan.root.children.is_empty());
    assert_eq!((scan.root.name.as_str(), scan.root.path.as_str(), scan.root.size), ("r", "/r", 0));
}

#[test]
fn progress_is_the_scanned_part_of_the_estimate() {
    let mut progress = ScanProgress::start(ScanPhase::Scanning);
    progress.total_estimated_entries = Some(200);
    progress.progress_permille = Some(0);
    progress.entries_scanned = 50;
    update_scan_progress_metrics(&mut progress, 10_000_000_000, false);
    assert_eq!(progress.progress_permille, Some(250));
    assert_eq!(progress.remaining_estimated_entries, Some(150));
    assert_eq!(progress.eta_nanos, Some(30_000_000_000));
    progress.entries_scanned = 133;
    update_scan_progress_metrics(&mut progress, 7, false);
    assert_eq!(progress.progress_permille, Some(665));
    assert_eq!(progress.remaining_estimated_entries, Some(67));
    assert_eq!(progress.eta_nanos, Some(3));
}

#[test]
fn progress_never_goes_down_and_ends_at_exactly_one_thousand() {
    let mut progress = ScanProgress::start(ScanPhase::Scanning);
    progress.total_estimated_entries = Some(10);
    let mut shown = Vec::new();
    for entries in [0u64, 3, 2, 9, 10, 25, 4] {
        progress.entries_scanned = entries;
        update_scan_progress_metrics(&mut progress, 1_000, false);
        shown.push(progress.progress_permille.unwrap());
    }
    assert_eq!(shown, vec![0, 300, 300, 900, 999, 999, 999]);
    update_scan_progress_metrics(&mut progress, 1_000, true);
    assert_eq!(progress.progress_permille, Some(1000));
    assert_eq!(progress.remaining_estimated_entries, Some(0));
    assert_eq!(progress.eta_nanos, Some(0));
}

#[test]
fn no_time_estimate_before_the_first_entry_or_the_first_tick() {
    let mut progress = ScanProgress::start(ScanPhase::Scanning);
    progress.total_estimated_entries = Some(10);
    update_scan_progress_metrics(&mut progress, 5_000, false);
    assert_eq!(progress.eta_nanos, None);
    assert_eq!(progress.progress_permille, Some(0));
    assert_eq!(progress.remaining_estimated_entries, Some(10));
    progress.entries_scanned = 4;
    update_scan_progress_metrics(&mut progress, 0, false);
    assert_eq!(progress.eta_nanos, None);
    assert_eq!(progress.progress_permille, Some(400));
    update_scan_progress_metrics(&mut progress, 8, false);
    assert_eq!(progress.eta_nanos, Some(12));
    // Without an estimate the whole counts as one entry.
    let mut bare = ScanProgress::start(ScanPhase::Scanning);
    bare.entries_scanned = u64::MAX;
    update_scan_progress_metrics(&mut bare, u64::MAX, false);
    assert_eq!(bare.progress_permille, Some(999));
    assert_eq!(bare.remaining_estimated_entries, Some(0));
    assert_eq!(bare.eta_nanos, Some(0));
    bare.total_estimated_entries = Some(u64::MAX);
    bare.entries_scanned = 1;
    update_scan_progress_metrics(&mut bare, u64::MAX, false);
    assert_eq!(bare.eta_nanos, Some((u64::MAX as u128 - 1) * (u64::MAX as u128)));
}

#[test]
fn snapshot_copies_every_figure() {
    let mut progress = ScanProgress::start(ScanPhase::Scanning);
    progress.entries_scanned = 5;
    progress.files_scanned = 4;
    progress.directories_scanned = 1;
    progress.warnings = 2;
    progress.truncated = true;
    progress.current_path = Some("/r/q".to_string());
    progress.total_estimated_entries = Some(9);
    progress.remaining_estimated_entries = Some(4);
    progress.progress_permille = Some(555);
    progress.eta_nanos = Some(77);
    let copy = progress.snapshot();
    assert_eq!(format!("{:?}", copy), format!("{:?}", progress));
    assert_eq!(copy.current_path.as_deref(), Some("/r/q"));
    assert_eq!(copy.eta_nanos, Some(77));
}

#[test]
fn scan_of_a_missing_root_fails_before_any_walk() {
    let checked = check_root("/path/does/not/exist", false, false);
    assert_eq!(checked, Err("Directory does not exist: /path/does/not/exist".to_string()));
    let checked = check_root("/etc/hosts", true, false);
    assert_eq!(checked, Err("Path is not a directory: /etc/hosts".to_string()));
    assert_eq!(check_root("/etc", true, true), Ok(()));
    assert_eq!(check_root("/gone", false, true), Err("Directory does not exist: /gone".to_string()));
}

#[test]
fn warning_texts() {
    assert_eq!(
        metadata_warning_text("/r/a", "denied"),
        "Could not read metadata for /r/a: denied"
    );
    assert_eq!(access_warning_text(Some("/r/b"), "gone"), "Could not access /r/b: gone");
    assert_eq!(access_warning_text(None, "odd"), "Walkdir error: odd");
}

#[test]
fn walkdir_errors_become_access_warnings() {
    let mut walk = walkdir::WalkDir::new("/path/does/not/exist").into_iter();
    let error = walk.next().expect("one item").expect_err("an error");
    let message = format_walkdir_error(&error);
    assert!(message.starts_with("Could not access /path/does/not/exist: "), "{}", message);
    assert_eq!(message, format!("Could not access /path/does/not/exist: {}", error));
    assert!(message.len() > "Could not access /path/does/not/exist: ".len());
}

#[test]
fn a_channel_that_is_gone_ends_the_scan_with_an_error() {
    match receive(Polled::Disconnected) {
        Received::Done(Err(text)) => assert_eq!(text, "Scan worker disconnected unexpectedly"),
        other => panic!("unexpected {:?}", other),
    }
    assert!(matches!(receive(Polled::Empty), Received::Wait));
    let mut progress = ScanProgress::start(ScanPhase::Scanning);
    progress.entries_scanned = 3;
    match receive(Polled::Message(ScanMessage::Progress(progress))) {
        Received::Progress(progress) => assert_eq!(progress.entries_scanned, 3),
        other => panic!("unexpected {:?}", other),
    }
    match receive(Polled::Message(ScanMessage::Finished(Err("no".to_string())))) {
        Received::Done(Err(text)) => assert_eq!(text, "no"),
        other => panic!("unexpected {:?}", other),
    }
    let (result, _) = Scan::begin("r".to_string(), "/r".to_string(), 1).finish();
    match receive(Polled::Message(ScanMessage::Finished(Ok(result)))) {
        Received::Done(Ok(result)) => assert_eq!(result.root.name, "r"),
        other => panic!("unexpected {:?}", other),
    }
}

#[test]
fn every_scan_gets_the_next_number() {
    assert_eq!(next_generation(0), 1);
    assert_eq!(next_generation(41), 42);
    assert_eq!(next_generation(u64::MAX), 0);
}

#[test]
fn results_and_progress_can_be_copied() {
    let config = config(None, 2);
    let mut scan = Scan::begin("r".to_string(), "/r".to_string(), 2);
    scan.entry(&config, file("/r/a", "a", 3));
    scan.failure(&config, "odd".to_string());
    let progress = scan.progress.clone();
    assert_eq!(format!("{:?}", progress), format!("{:?}", scan.progress));
    let (result, _) = scan.finish();
    let copy = result.clone();
    assert_eq!(format!("{:?}", copy), format!("{:?}", result));
    assert_eq!(copy.warnings, vec!["odd".to_string()]);
    assert_eq!(copy.root.children[0].size, 3);
}

#[test]
fn a_size_is_read_only_for_a_file_that_goes_into_the_tree() {
    let limited = config(Some(1), 100);
    let mut scan = Scan::begin("r".to_string(), "/r".to_string(), 4);
    let a = Some("a".to_string());
    assert!(scan.needs_size(&limited, 1, false, &a));
    assert!(!scan.needs_size(&limited, 1, true, &a));
    assert!(!scan.needs_size(&limited, 0, false, &a));
    assert!(!scan.needs_size(&limited, 1, false, &None));
    assert!(!scan.needs_size(&limited, 1, false, &Some(String::new())));
    scan.entry(&limited, file("/r/a", "a", 1));
    assert!(!scan.needs_size(&limited, 1, false, &Some("b".to_string())));
    assert!(scan.needs_size(&config(None, 100), 1, false, &Some("b".to_string())));
    assert!(scan.needs_size(&config(Some(2), 100), 3, false, &Some("b/c/d".to_string())));
}

#[test]
fn the_tree_holds_no_more_files_than_the_limit() {
    fn leaves(node: &tree_map_base::model::Node) -> usize {
        if node.children.is_empty() {
            1
        } else {
            node.children.iter().map(leaves).sum()
        }
    }
    for limit in 1..6usize {
        let config = config(Some(limit), 100);
        let mut scan = Scan::begin("r".to_string(), "/r".to_string(), 20);
        scan.entry(&config, root_entry("/r"));
        scan.entry(&config, dir("/r/d", "d"));
        for i in 0..8 {
            let relative = format!("d/f{i}");
            if scan.entry(&config, file(&format!("/r/{relative}"), &relative, 1 + i)) == Next::Stop {
                break;
            }
        }
        let (result, _) = scan.finish();
        assert_eq!(result.stats.files_scanned, limit as u64);
        assert!(result.stats.truncated);
        assert_eq!(leaves(&result.root), limit);
    }
}
