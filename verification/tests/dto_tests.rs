use devjunk_core::CleanFailureDto;
use devjunk_core::CleanResult;
use devjunk_core::CleanResultDto;
use devjunk_core::JunkKind;
use devjunk_core::JunkKindDto;
use devjunk_core::ScanItem;
use devjunk_core::ScanItemDto;
use devjunk_core::ScanResult;
use devjunk_core::ScanResultDto;

#[test]
fn test_scan_item_dto_rendering() {
    let item = ScanItem::new(
        "/p/node_modules".to_string(),
        JunkKind::NodeModules,
        1024,
        17,
    );
    let dto = ScanItemDto::from_item(&item);
    assert_eq!(dto.path, "/p/node_modules");
    assert_eq!(dto.kind, "nodemodules");
    assert_eq!(dto.kind_display, "Node Modules");
    assert_eq!(dto.size_bytes, 1024);
    assert_eq!(dto.size_display, "1.00 KB");
    assert_eq!(dto.file_count, 17);
}

#[test]
fn test_scan_result_dto_totals() {
    let result = ScanResult {
        items: vec![
            ScanItem::new("/a".to_string(), JunkKind::BuildDir, 512, 2),
            ScanItem::new("/b".to_string(), JunkKind::DistDir, 512, 3),
        ],
    };
    let dto = ScanResultDto::from_result(&result);
    assert_eq!(dto.items.len(), 2);
    assert_eq!(dto.total_size_bytes, 1024);
    assert_eq!(dto.total_size_display, "1.00 KB");
    assert_eq!(dto.total_file_count, 5);
    assert_eq!(dto.item_count, 2);
}

#[test]
fn test_clean_result_dto_rendering() {
    let result = CleanResult {
        deleted: vec!["/a/out".to_string()],
        failed: vec![("/b/out".to_string(), "busy".to_string())],
        bytes_freed: 500,
        was_dry_run: false,
    };
    let dto = CleanResultDto::from_result(&result);
    assert_eq!(dto.deleted, vec!["/a/out".to_string()]);
    assert_eq!(dto.deleted_count, 1);
    assert_eq!(dto.failed_count, 1);
    let failure: &CleanFailureDto = &dto.failed[0];
    assert_eq!(failure.path, "/b/out");
    assert_eq!(failure.error, "busy");
    assert_eq!(dto.bytes_freed, 500);
    assert_eq!(dto.bytes_freed_display, "500 B");
    assert!(!dto.was_dry_run);
    assert!(!dto.is_success);
}

#[test]
fn test_junk_kind_dto_rendering() {
    let dto = JunkKindDto::from_kind(JunkKind::PythonVenv);
    assert_eq!(dto.id, "pythonvenv");
    assert_eq!(dto.display_name, "Python Venv");
    assert_eq!(dto.patterns, vec![".venv".to_string(), "venv".to_string()]);
}
