use provis::scanner::{calculate_size_no_recurse, should_skip, DirectoryScanner, FsNode, ScanError};

fn dir(name: &str, files_size: u64, subdirs: Vec<FsNode>) -> FsNode {
    FsNode { name: name.to_string(), files_size, readable: true, subdirs }
}

fn unreadable(name: &str) -> FsNode {
    FsNode { name: name.to_string(), files_size: 0, readable: false, subdirs: Vec::new() }
}

#[test]
fn empty_root_yields_empty_result() {
    let root = dir("base", 123, vec![]);
    let entries = DirectoryScanner::new("/base").scan(&root).unwrap();
    assert!(entries.is_empty());
}

#[test]
fn unreadable_root_is_the_one_fatal_error() {
    let root = unreadable("base");
    let err = DirectoryScanner::new("/base").scan(&root).unwrap_err();
    assert_eq!(err, ScanError::RootUnreadable);
}

#[test]
fn result_is_bounded_and_sorted_descending() {
    let root = dir(
        "base",
        0,
        vec![
            dir("a", 10, vec![]),
            dir("b", 500, vec![]),
            dir("c", 40, vec![]),
            dir("d", 7, vec![]),
        ],
    );
    let entries = DirectoryScanner::new("/base").max_depth(1).scan(&root).unwrap();
    assert_eq!(entries.len(), 4);
    for w in entries.windows(2) {
        assert!(w[0].size >= w[1].size);
    }
    assert_eq!(entries[0].size, 500);
}

#[test]
fn capacity_keeps_only_the_largest() {
    let root = dir(
        "base",
        0,
        vec![
            dir("a", 10, vec![]),
            dir("b", 500, vec![]),
            dir("c", 40, vec![]),
            dir("d", 7, vec![]),
            dir("e", 90, vec![]),
        ],
    );
    // A capacity below the candidate count keeps the largest, in order.
    let entries = new_with_results(2).scan(&root).unwrap();
    assert_eq!(entries.len(), 2);
    assert_eq!(entries[0].size, 500);
    assert_eq!(entries[0].path, "/base/b");
    assert_eq!(entries[1].size, 90);
    assert_eq!(entries[1].path, "/base/e");
}

/// Build a scanner with a small retention capacity by reusing the public
/// configuration fields.
fn new_with_results(max_results: usize) -> DirectoryScanner {
    let mut s = DirectoryScanner::new("/base");
    s.max_results = max_results;
    s
}

#[test]
fn small_tree_is_reported_whole_with_brute_force_sizes() {
    // Three directories, capacity well above three: every one is reported,
    // each with its full recursive size.
    let root = dir(
        "base",
        5,
        vec![
            dir("a", 100, vec![dir("a1", 30, vec![])]),
            dir("b", 20, vec![]),
        ],
    );
    let entries = DirectoryScanner::new("/base").recursive().show_all(true).scan(&root).unwrap();
    assert_eq!(entries.len(), 3);
    let find = |p: &str| entries.iter().find(|e| e.path == p).expect(p);
    assert_eq!(find("/base/a").size, 130);
    assert_eq!(find("/base/a/a1").size, 30);
    assert_eq!(find("/base/b").size, 20);
    assert_eq!(entries[0].size, 130);
}

#[test]
fn big_directory_ranks_first_among_small_siblings() {
    // A/big of 10MB next to nine 1KB siblings; capacity five.
    let mut siblings = vec![dir("big", 10 * 1024 * 1024, vec![])];
    for i in 0..9 {
        siblings.push(dir(&format!("s{}", i), 1024, vec![]));
    }
    let root = dir("A", 0, siblings);
    let entries = new_with_results(5).scan(&root).unwrap();
    assert_eq!(entries.len(), 5);
    assert_eq!(entries[0].path, "/base/big");
    assert_eq!(entries[0].size, 10 * 1024 * 1024);
}

#[test]
fn unreadable_subdirectory_contributes_zero_and_does_not_abort() {
    let root = dir(
        "base",
        0,
        vec![
            dir("a", 100, vec![]),
            FsNode {
                name: "locked".to_string(),
                files_size: 999_999,
                readable: false,
                subdirs: vec![dir("hidden_inside", 5000, vec![])],
            },
            dir("c", 50, vec![]),
        ],
    );
    let entries = DirectoryScanner::new("/base").recursive().scan(&root).unwrap();
    // All three siblings are reported; the unreadable one counts as zero
    // bytes and nothing below it is visited.
    assert_eq!(entries.len(), 3);
    let find = |p: &str| entries.iter().find(|e| e.path == p).expect(p);
    assert_eq!(find("/base/a").size, 100);
    assert_eq!(find("/base/locked").size, 0);
    assert_eq!(find("/base/c").size, 50);
    assert!(entries.iter().all(|e| e.path != "/base/locked/hidden_inside"));
}

#[test]
fn hidden_and_build_directories_are_excluded_by_default() {
    let root = dir(
        "base",
        0,
        vec![
            dir(".git", 4000, vec![]),
            dir("node_modules", 9000, vec![]),
            dir("src", 100, vec![dir("deep", 25, vec![])]),
        ],
    );
    let entries = DirectoryScanner::new("/base").recursive().scan(&root).unwrap();
    // Only src and its contents are reported or counted.
    assert_eq!(entries.len(), 2);
    assert_eq!(entries[0].path, "/base/src");
    assert_eq!(entries[0].size, 125);
    assert_eq!(entries[1].path, "/base/src/deep");
    assert_eq!(entries[1].size, 25);
}

#[test]
fn show_all_lifts_the_exclusion() {
    let root = dir(
        "base",
        0,
        vec![dir(".git", 4000, vec![]), dir("src", 100, vec![])],
    );
    let entries = DirectoryScanner::new("/base").recursive().show_all(true).scan(&root).unwrap();
    assert_eq!(entries.len(), 2);
    assert_eq!(entries[0].path, "/base/.git");
    assert_eq!(entries[0].size, 4000);
}

#[test]
fn depth_limit_approximates_by_direct_files_only() {
    // base -> a -> b -> c; with the default depth of one, the walk descends
    // into a, then approximates b by its direct files, never seeing c.
    let root = dir(
        "base",
        0,
        vec![dir("a", 10, vec![dir("b", 20, vec![dir("c", 30, vec![])])])],
    );
    let entries = DirectoryScanner::new("/base").scan(&root).unwrap();
    assert_eq!(entries.len(), 2);
    let find = |p: &str| entries.iter().find(|e| e.path == p).expect(p);
    assert_eq!(find("/base/a").size, 30); // 10 direct + 20 approximated for b
    assert!(find("/base/a").is_immediate_child);
    assert_eq!(find("/base/a/b").size, 20); // c's 30 bytes deliberately left out
    assert!(!find("/base/a/b").is_immediate_child);
}

#[test]
fn recursive_scan_counts_everything() {
    let root = dir(
        "base",
        0,
        vec![dir("a", 10, vec![dir("b", 20, vec![dir("c", 30, vec![])])])],
    );
    let entries = DirectoryScanner::new("/base").recursive().scan(&root).unwrap();
    assert_eq!(entries.len(), 3);
    let find = |p: &str| entries.iter().find(|e| e.path == p).expect(p);
    assert_eq!(find("/base/a").size, 60);
    assert_eq!(find("/base/a/b").size, 50);
    assert_eq!(find("/base/a/b/c").size, 30);
}

#[test]
fn ties_are_all_reported_in_some_order() {
    let root = dir(
        "base",
        0,
        vec![dir("x", 77, vec![]), dir("y", 77, vec![])],
    );
    let entries = DirectoryScanner::new("/base").scan(&root).unwrap();
    assert_eq!(entries.len(), 2);
    assert_eq!(entries[0].size, 77);
    assert_eq!(entries[1].size, 77);
    let mut paths: Vec<&str> = entries.iter().map(|e| e.path.as_str()).collect();
    paths.sort();
    assert_eq!(paths, vec!["/base/x", "/base/y"]);
}

#[test]
fn default_capacity_is_twenty() {
    let mut siblings = Vec::new();
    for i in 0..25 {
        siblings.push(dir(&format!("d{:02}", i), 100 + i, vec![]));
    }
    let root = dir("base", 0, siblings);
    let entries = DirectoryScanner::new("/base").scan(&root).unwrap();
    assert_eq!(entries.len(), 20);
    // The five smallest (sizes 100..=104) are the ones dropped.
    assert!(entries.iter().all(|e| e.size >= 105));
}

#[test]
fn skip_policy_names() {
    assert!(should_skip(".git"));
    assert!(should_skip(".anything"));
    assert!(should_skip("node_modules"));
    assert!(should_skip("target"));
    assert!(should_skip("__pycache__"));
    assert!(should_skip("htmlcov"));
    assert!(!should_skip("src"));
    assert!(!should_skip(""));
    assert!(!should_skip("targets"));
}

#[test]
fn shallow_size_reads_direct_files_alone() {
    let c = dir("x", 42, vec![dir("inner", 1000, vec![])]);
    assert_eq!(calculate_size_no_recurse(&c), 42);
    assert_eq!(calculate_size_no_recurse(&unreadable("x")), 0);
}
