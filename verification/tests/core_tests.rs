use devjunk_core::build_scan_config;
use devjunk_core::JunkKind;
use devjunk_core::ScanConfig;
use devjunk_core::ScanItem;
use devjunk_core::ScanResult;

#[test]
fn test_default_scan_config() {
    let config = ScanConfig::default();
    assert!(config.roots.is_empty());
    assert!(!config.include_hidden);
    assert!(config.max_depth.is_none());
}

#[test]
fn test_junk_kind_patterns() {
    assert!(JunkKind::NodeModules.matches_name("node_modules"));
    assert!(JunkKind::PythonVenv.matches_name(".venv"));
    assert!(JunkKind::PythonVenv.matches_name("venv"));
    assert!(JunkKind::RustTarget.matches_name("target"));
    assert!(JunkKind::PythonCache.matches_name("__pycache__"));
}

#[test]
fn test_scan_result_summary() {
    let result = ScanResult {
        items: vec![
            ScanItem {
                path: "/test/node_modules".to_string(),
                kind: JunkKind::NodeModules,
                size_bytes: 1000,
                file_count: 50,
            },
            ScanItem {
                path: "/test/target".to_string(),
                kind: JunkKind::RustTarget,
                size_bytes: 2000,
                file_count: 100,
            },
        ],
    };

    assert_eq!(result.total_size_bytes(), 3000);
    assert_eq!(result.total_file_count(), 150);
    assert_eq!(result.item_count(), 2);
}

#[test]
fn test_junk_kind_all_order() {
    let all = JunkKind::all();
    assert_eq!(all.len(), 13);
    assert_eq!(all[0], JunkKind::PythonVenv);
    assert_eq!(all[5], JunkKind::NodeModules);
    assert_eq!(all[12], JunkKind::NuxtDir);
}

#[test]
fn test_from_name_first_match_wins() {
    assert_eq!(JunkKind::from_name("node_modules"), Some(JunkKind::NodeModules));
    assert_eq!(JunkKind::from_name(".venv"), Some(JunkKind::PythonVenv));
    assert_eq!(JunkKind::from_name("venv"), Some(JunkKind::PythonVenv));
    assert_eq!(JunkKind::from_name("src"), None);
    assert_eq!(JunkKind::from_name(""), None);
}

#[test]
fn test_display_names_and_ids() {
    assert_eq!(JunkKind::NodeModules.display_name(), "Node Modules");
    assert_eq!(JunkKind::NextDir.display_name(), "Next.js");
    assert_eq!(JunkKind::NodeModules.stable_id(), "nodemodules");
    assert_eq!(JunkKind::PythonVenv.stable_id(), "pythonvenv");
}

#[test]
fn test_patterns_listing() {
    assert_eq!(JunkKind::PythonVenv.patterns(), vec![".venv", "venv"]);
    assert_eq!(JunkKind::RustTarget.patterns(), vec!["target"]);
}

#[test]
fn test_sort_by_size_descending() {
    let mut result = ScanResult {
        items: vec![
            ScanItem::new("/a".to_string(), JunkKind::BuildDir, 5, 1),
            ScanItem::new("/b".to_string(), JunkKind::BuildDir, 50, 1),
            ScanItem::new("/c".to_string(), JunkKind::BuildDir, 20, 1),
        ],
    };
    result.sort_by_size();
    let sizes: Vec<u64> = result.items.iter().map(|i| i.size_bytes).collect();
    assert_eq!(sizes, vec![50, 20, 5]);
}

#[test]
fn test_sort_by_path_ascending() {
    let mut result = ScanResult {
        items: vec![
            ScanItem::new("/z/target".to_string(), JunkKind::RustTarget, 1, 1),
            ScanItem::new("/a/build".to_string(), JunkKind::BuildDir, 2, 1),
            ScanItem::new("/m/dist".to_string(), JunkKind::DistDir, 3, 1),
        ],
    };
    result.sort_by_path();
    let paths: Vec<String> = result.items.iter().map(|i| i.path.clone()).collect();
    assert_eq!(paths, vec!["/a/build", "/m/dist", "/z/target"]);
}

#[test]
fn test_builders() {
    let config = ScanConfig::new(vec!["/tmp".to_string()])
        .with_max_depth(3)
        .with_hidden(true)
        .with_patterns(vec![JunkKind::RustTarget]);
    assert_eq!(config.roots, vec!["/tmp".to_string()]);
    assert_eq!(config.max_depth, Some(3));
    assert!(config.include_hidden);
    assert_eq!(config.include_patterns, vec![JunkKind::RustTarget]);
}

#[test]
fn test_build_scan_config_filters_kinds() {
    // the filter is lower-cased before the identifiers are searched
    let config = build_scan_config(
        vec!["/tmp".to_string()],
        None,
        false,
        &vec!["NODE".to_string()],
    );
    assert_eq!(config.include_patterns, vec![JunkKind::NodeModules]);

    // a filter hitting several identifiers keeps them all, in catalog order
    let config = build_scan_config(vec![], None, false, &vec!["python".to_string()]);
    assert_eq!(
        config.include_patterns,
        vec![JunkKind::PythonVenv, JunkKind::PythonTox, JunkKind::PythonCache],
    );

    // a filter hitting nothing falls back to the whole catalog
    let config = build_scan_config(vec![], None, false, &vec!["nosuch".to_string()]);
    assert_eq!(config.include_patterns, JunkKind::all());

    // no filters at all: the whole catalog
    let config = build_scan_config(vec![], Some(2), true, &vec![]);
    assert_eq!(config.include_patterns, JunkKind::all());
    assert_eq!(config.max_depth, Some(2));
    assert!(config.include_hidden);
}
