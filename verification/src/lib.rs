//! Scanning and cleaning of development junk directories.
//!
//! The crate finds directories that hold regenerable development artifacts
//! (dependency caches, build outputs, language tool caches) beneath a set of
//! configured roots, measures them, and plans and executes their deletion.

pub mod cleaner;
pub mod dto;
pub mod error;
pub mod scanner;
pub mod strutil;
pub mod types;

pub use cleaner::build_clean_plan;
pub use cleaner::execute_clean_decided;
pub use cleaner::CleanAction;
pub use cleaner::CleanRun;
pub use cleaner::DeleteOutcome;
pub use dto::CleanFailureDto;
pub use dto::CleanResultDto;
pub use dto::JunkKindDto;
pub use dto::ScanItemDto;
pub use dto::ScanResultDto;
pub use error::DevJunkError;
pub use scanner::format_size;
pub use scanner::scan;
pub use scanner::scan_with_progress;
pub use scanner::ScanProgress;
pub use types::build_scan_config;
pub use types::CleanPlan;
pub use types::CleanResult;
pub use types::JunkKind;
pub use types::ScanConfig;
pub use types::ScanItem;
pub use types::ScanResult;
