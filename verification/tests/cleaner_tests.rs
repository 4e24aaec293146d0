use devjunk_core::build_clean_plan;
use devjunk_core::execute_clean_decided;
use devjunk_core::CleanAction;
use devjunk_core::CleanPlan;
use devjunk_core::CleanResult;
use devjunk_core::CleanRun;
use devjunk_core::DeleteOutcome;
use devjunk_core::JunkKind;
use devjunk_core::ScanItem;
use devjunk_core::ScanResult;

#[test]
fn test_build_clean_plan_filters_selection() {
    let result = ScanResult {
        items: vec![
            ScanItem::new(
                "/a/node_modules".to_string(),
                JunkKind::NodeModules,
                1000,
                10,
            ),
            ScanItem::new("/b/target".to_string(), JunkKind::RustTarget, 2000, 20),
            ScanItem::new(
                "/c/__pycache__".to_string(),
                JunkKind::PythonCache,
                500,
                5,
            ),
        ],
    };

    let selection = vec![
        "/a/node_modules".to_string(),
        "/c/__pycache__".to_string(),
    ];

    let plan = build_clean_plan(&result, &selection, true);

    assert_eq!(plan.count(), 2);
    assert!(plan.paths.contains(&"/a/node_modules".to_string()));
    assert!(plan.paths.contains(&"/c/__pycache__".to_string()));
    assert!(!plan.paths.contains(&"/b/target".to_string()));
}

#[test]
fn test_build_clean_plan_ignores_unscanned_selection() {
    let result = ScanResult {
        items: vec![ScanItem::new("/a/dist".to_string(), JunkKind::DistDir, 10, 1)],
    };
    let selection = vec!["/a/dist".to_string(), "/stale/path".to_string()];
    let plan = build_clean_plan(&result, &selection, false);
    assert_eq!(plan.paths, vec!["/a/dist".to_string()]);
    assert!(!plan.dry_run);
}

/// A dry run is only ever asked to probe, never to remove, and reports
/// itself as a dry run.
#[test]
fn test_dry_run_never_asks_for_removal() {
    let plan = CleanPlan::new(
        vec!["/a/node_modules".to_string(), "/b/target".to_string()],
        true,
    );
    let mut run = CleanRun::new(&plan);
    let mut probes = 0;
    while let Some(action) = run.next_action() {
        match action {
            CleanAction::Probe(path) => {
                probes += 1;
                // the path still exists: report what would be freed
                let size = if path == "/a/node_modules" { 100 } else { 25 };
                run.record_outcome(&DeleteOutcome::Removed(size));
            }
            CleanAction::Remove(_) => panic!("a dry run must never remove"),
        }
    }
    assert_eq!(probes, 2);
    let result: CleanResult = run.into_result();
    assert!(result.was_dry_run);
    assert_eq!(result.deleted_count(), 2);
    assert_eq!(result.failed_count(), 0);
    assert_eq!(result.bytes_freed, 125);
    assert!(result.is_success());
}

/// A real run asks for removal and a plan holding a parent and its child
/// deletes only the parent: the child is neither deleted nor failed.
#[test]
fn test_parent_and_child_in_one_plan() {
    let plan = CleanPlan::new(
        vec![
            "/p/node_modules".to_string(),
            "/p/node_modules/pkg/node_modules".to_string(),
        ],
        false,
    );
    let mut run = CleanRun::new(&plan);
    let mut removals = 0;
    while let Some(action) = run.next_action() {
        match action {
            CleanAction::Remove(path) => {
                removals += 1;
                assert_eq!(path, "/p/node_modules");
                run.record_outcome(&DeleteOutcome::Removed(4096));
            }
            CleanAction::Probe(_) => panic!("a real run probes nothing"),
        }
    }
    assert_eq!(removals, 1);
    let result = run.into_result();
    assert!(!result.was_dry_run);
    assert_eq!(result.deleted, vec!["/p/node_modules".to_string()]);
    assert_eq!(result.failed_count(), 0);
    assert_eq!(result.bytes_freed, 4096);
}

/// The same parent-and-child plan through the replay executor.
#[test]
fn test_replay_parent_covers_child() {
    let plan = CleanPlan::new(
        vec!["/p/target".to_string(), "/p/target/debug".to_string()],
        false,
    );
    let outcomes = vec![DeleteOutcome::Removed(500)];
    let result = execute_clean_decided(&plan, &outcomes);
    assert_eq!(result.deleted, vec!["/p/target".to_string()]);
    assert_eq!(result.failed_count(), 0);
    assert_eq!(result.bytes_freed, 500);
}

/// A path that vanished between scan and execution is neither deleted nor
/// failed and frees no bytes.
#[test]
fn test_vanished_path_is_silently_skipped() {
    let plan = CleanPlan::new(
        vec!["/gone/build".to_string(), "/still/dist".to_string()],
        false,
    );
    let outcomes = vec![DeleteOutcome::Missing, DeleteOutcome::Removed(77)];
    let result = execute_clean_decided(&plan, &outcomes);
    assert_eq!(result.deleted, vec!["/still/dist".to_string()]);
    assert_eq!(result.failed_count(), 0);
    assert_eq!(result.bytes_freed, 77);
}

/// One failing deletion among three still deletes the other two, records
/// exactly one failure, and the batch completes.
#[test]
fn test_one_failure_does_not_abort_batch() {
    let plan = CleanPlan::new(
        vec![
            "/a/node_modules".to_string(),
            "/b/target".to_string(),
            "/c/__pycache__".to_string(),
        ],
        false,
    );
    let outcomes = vec![
        DeleteOutcome::Removed(10),
        DeleteOutcome::Failed("permission denied".to_string()),
        DeleteOutcome::Removed(30),
    ];
    let result = execute_clean_decided(&plan, &outcomes);
    assert_eq!(result.deleted_count(), 2);
    assert_eq!(result.failed_count(), 1);
    assert_eq!(result.failed[0].0, "/b/target");
    assert_eq!(result.failed[0].1, "permission denied");
    assert_eq!(result.bytes_freed, 40);
    assert!(!result.is_success());
}

#[test]
fn test_clean_result_accessors() {
    let result = CleanResult::new(true);
    assert!(result.was_dry_run);
    assert_eq!(result.deleted_count(), 0);
    assert_eq!(result.failed_count(), 0);
    assert_eq!(result.bytes_freed, 0);
    assert!(result.is_success());
}
