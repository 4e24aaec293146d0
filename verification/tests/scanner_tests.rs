use devjunk_core::scanner::scan_entries;
use devjunk_core::scanner::sum_entry_stats;
use devjunk_core::scanner::WalkEntry;
use devjunk_core::format_size;
use devjunk_core::scan;
use devjunk_core::scan_with_progress;
use devjunk_core::ScanProgress;
use devjunk_core::DevJunkError;
use devjunk_core::JunkKind;
use devjunk_core::ScanConfig;

fn dir_entry(path: &str, name: &str, depth: usize) -> WalkEntry {
    WalkEntry {
        path: path.to_string(),
        name: name.to_string(),
        depth,
        is_dir: true,
        is_file: false,
        size: None,
    }
}

fn file_entry(path: &str, name: &str, depth: usize, size: u64) -> WalkEntry {
    WalkEntry {
        path: path.to_string(),
        name: name.to_string(),
        depth,
        is_dir: false,
        is_file: true,
        size: Some(size),
    }
}

#[test]
fn test_format_size() {
    assert_eq!(format_size(500), "500 B");
    assert_eq!(format_size(1024), "1.00 KB");
    assert_eq!(format_size(1536), "1.50 KB");
    assert_eq!(format_size(1048576), "1.00 MB");
    assert_eq!(format_size(1073741824), "1.00 GB");
}

#[test]
fn test_format_size_rounding_and_fractions() {
    assert_eq!(format_size(0), "0 B");
    assert_eq!(format_size(1023), "1023 B");
    assert_eq!(format_size(1025), "1.00 KB");
    assert_eq!(format_size(1029), "1.00 KB");
    // 1535 / 1024 rounds to the nearest hundredth, 1.50
    assert_eq!(format_size(1535), "1.50 KB");
    // exact ties round to the even hundredth: 1.125 down, 1.375 up
    assert_eq!(format_size(1152), "1.12 KB");
    assert_eq!(format_size(1408), "1.38 KB");
    // just below the next unit the fraction carries into the whole part
    assert_eq!(format_size(1048575), "1024.00 KB");
}

/// The end-to-end tree of three projects: each junk directory is found with
/// its kind, and its one file accounts for its size and file count.
#[test]
fn test_scan_model_finds_multiple_types() {
    let entries = vec![
        dir_entry("/root", "root", 0),
        dir_entry("/root/proj1", "proj1", 1),
        dir_entry("/root/proj1/node_modules", "node_modules", 2),
        file_entry("/root/proj1/node_modules/index.js", "index.js", 3, 21),
        dir_entry("/root/proj2", "proj2", 1),
        dir_entry("/root/proj2/target", "target", 2),
        file_entry("/root/proj2/target/main.rs", "main.rs", 3, 12),
        dir_entry("/root/proj3", "proj3", 1),
        dir_entry("/root/proj3/__pycache__", "__pycache__", 2),
        file_entry("/root/proj3/__pycache__/module.pyc", "module.pyc", 3, 7),
    ];
    let config = ScanConfig::new(vec!["/root".to_string()]).with_hidden(true);
    let found = scan_entries(&entries, &config);

    assert_eq!(found.len(), 3);
    assert_eq!(found[0].path, "/root/proj1/node_modules");
    assert_eq!(found[0].kind, JunkKind::NodeModules);
    assert_eq!(found[1].path, "/root/proj2/target");
    assert_eq!(found[1].kind, JunkKind::RustTarget);
    assert_eq!(found[2].path, "/root/proj3/__pycache__");
    assert_eq!(found[2].kind, JunkKind::PythonCache);

    // each matched directory holds exactly its one file
    let nm = vec![
        dir_entry("/root/proj1/node_modules", "node_modules", 0),
        file_entry("/root/proj1/node_modules/index.js", "index.js", 1, 21),
    ];
    assert_eq!(sum_entry_stats(&nm), (21, 1));
}

/// Pruning on match: nothing below a matched directory is reported again,
/// even when its name matches too.
#[test]
fn test_scan_model_prunes_nested_matches() {
    let entries = vec![
        dir_entry("/r", "r", 0),
        dir_entry("/r/node_modules", "node_modules", 1),
        dir_entry("/r/node_modules/pkg", "pkg", 2),
        dir_entry("/r/node_modules/pkg/node_modules", "node_modules", 3),
        dir_entry("/r/build", "build", 1),
    ];
    let config = ScanConfig::new(vec!["/r".to_string()]).with_hidden(true);
    let found = scan_entries(&entries, &config);
    let paths: Vec<String> = found.iter().map(|m| m.path.clone()).collect();
    assert_eq!(paths, vec!["/r/node_modules", "/r/build"]);
}

/// Hidden directories are skipped with their subtrees unless their name
/// matches an active pattern.
#[test]
fn test_scan_model_hidden_filter() {
    let entries = vec![
        dir_entry("/r", "r", 0),
        dir_entry("/r/.cache", ".cache", 1),
        dir_entry("/r/.cache/target", "target", 2),
        dir_entry("/r/.venv", ".venv", 1),
        dir_entry("/r/src", "src", 1),
        dir_entry("/r/src/target", "target", 2),
    ];
    let config = ScanConfig::new(vec!["/r".to_string()]);
    assert!(!config.include_hidden);
    let found = scan_entries(&entries, &config);
    let paths: Vec<String> = found.iter().map(|m| m.path.clone()).collect();
    // .cache is pruned with its matching child; .venv is hidden but matches
    assert_eq!(paths, vec!["/r/.venv", "/r/src/target"]);

    // with hidden descent enabled the target below .cache is found as well
    let config = ScanConfig::new(vec!["/r".to_string()]).with_hidden(true);
    let found = scan_entries(&entries, &config);
    let paths: Vec<String> = found.iter().map(|m| m.path.clone()).collect();
    assert_eq!(paths, vec!["/r/.cache/target", "/r/.venv", "/r/src/target"]);
}

/// Exclusion: an excluded path and everything below it is skipped.
#[test]
fn test_scan_model_exclusions() {
    let entries = vec![
        dir_entry("/r", "r", 0),
        dir_entry("/r/a", "a", 1),
        dir_entry("/r/a/target", "target", 2),
        dir_entry("/r/b", "b", 1),
        dir_entry("/r/b/target", "target", 2),
    ];
    let mut config = ScanConfig::new(vec!["/r".to_string()]).with_hidden(true);
    config.exclude_paths = vec!["/r/a".to_string()];
    let found = scan_entries(&entries, &config);
    let paths: Vec<String> = found.iter().map(|m| m.path.clone()).collect();
    assert_eq!(paths, vec!["/r/b/target"]);
}

/// Scanning the same unmodified tree twice yields identical matches.
#[test]
fn test_scan_model_idempotent() {
    let entries = vec![
        dir_entry("/r", "r", 0),
        dir_entry("/r/node_modules", "node_modules", 1),
        dir_entry("/r/dist", "dist", 1),
    ];
    let config = ScanConfig::new(vec!["/r".to_string()]).with_hidden(true);
    let first = scan_entries(&entries, &config);
    let second = scan_entries(&entries, &config);
    assert_eq!(first.len(), second.len());
    for (a, b) in first.iter().zip(second.iter()) {
        assert_eq!(a.path, b.path);
        assert_eq!(a.kind, b.kind);
    }
}

/// Aggregation counts regular files only, and a file whose metadata could
/// not be read contributes zero to both the size and the count.
#[test]
fn test_sum_entry_stats_policy() {
    let entries = vec![
        dir_entry("/d", "d", 0),
        file_entry("/d/a", "a", 1, 100),
        WalkEntry {
            path: "/d/unreadable".to_string(),
            name: "unreadable".to_string(),
            depth: 1,
            is_dir: false,
            is_file: true,
            size: None,
        },
        file_entry("/d/b", "b", 1, 23),
    ];
    assert_eq!(sum_entry_stats(&entries), (123, 2));
}

/// Root validation fails fast: a missing root fails the whole scan, an
/// existing non-directory root is reported as such.
#[test]
fn test_scan_validates_roots() {
    let config = ScanConfig::new(vec!["/no/such/path/anywhere".to_string()]);
    match scan(&config) {
        Err(DevJunkError::PathNotFound(p)) => assert_eq!(p, "/no/such/path/anywhere"),
        _ => panic!("expected PathNotFound"),
    }

    let config = ScanConfig::new(vec!["/dev/null".to_string()]);
    match scan(&config) {
        Err(DevJunkError::NotADirectory(p)) => assert_eq!(p, "/dev/null"),
        _ => panic!("expected NotADirectory"),
    }

    // no roots at all: an empty result
    let config = ScanConfig::new(vec![]);
    let result = scan(&config).unwrap();
    assert_eq!(result.item_count(), 0);
}

/// The streaming variant reports progress and agrees with the plain scan on
/// the result; with no roots it reports nothing and finds nothing.
#[test]
fn test_scan_with_progress_empty_roots() {
    let config = ScanConfig::new(vec![]);
    let reports = std::cell::Cell::new(0u32);
    let result = scan_with_progress(&config, |_p: ScanProgress| {
        reports.set(reports.get() + 1);
    })
    .unwrap();
    assert_eq!(result.item_count(), 0);
    assert_eq!(reports.get(), 0);
}

/// A missing root fails the streaming variant before any traversal.
#[test]
fn test_scan_with_progress_validates_roots() {
    let config = ScanConfig::new(vec!["/no/such/path/anywhere".to_string()]);
    let reports = std::cell::Cell::new(0u32);
    let r = scan_with_progress(&config, |_p: ScanProgress| {
        reports.set(reports.get() + 1);
    });
    assert!(matches!(r, Err(DevJunkError::PathNotFound(_))));
    assert_eq!(reports.get(), 0);
}
