//! Flat record types for user-interface consumers: string paths, stable
//! kind identifiers and precomputed human-readable size strings, derived
//! from the scan and clean result types.

use vstd::prelude::*;
use crate::scanner::format_size;
use crate::scanner::spec_format_size;
use crate::types::kind_patterns;
use crate::types::spec_display_name;
use crate::types::spec_kind_id;
use crate::types::sum_file_counts;
use crate::types::sum_sizes;
use crate::types::CleanResult;
use crate::types::JunkKind;
use crate::types::ScanItem;
use crate::types::ScanResult;

verus! {

/// One scanned junk item, flattened for presentation.
#[derive(Debug, Clone)]
pub struct ScanItemDto {
    /// Full path of the junk directory.
    pub path: String,
    /// Stable lower-case identifier of the kind.
    pub kind: String,
    /// Human-readable kind name.
    pub kind_display: String,
    /// Total size in bytes.
    pub size_bytes: u64,
    /// Human-readable size string.
    pub size_display: String,
    /// Total number of files.
    pub file_count: u64,
}

/// How a flattened item relates to the item it renders.
pub open spec fn item_dto_of(dto: ScanItemDto, item: ScanItem) -> bool {
    &&& dto.path@ == item.path@
    &&& dto.kind@ == spec_kind_id(item.kind)
    &&& dto.kind_display@ == spec_display_name(item.kind)
    &&& dto.size_bytes == item.size_bytes
    &&& dto.size_display@ == spec_format_size(item.size_bytes as int)
    &&& dto.file_count == item.file_count
}

impl ScanItemDto {
    /// The flattened rendering of one item.
    pub fn from_item(item: &ScanItem) -> (r: Self)
        ensures
            item_dto_of(r, *item),
    {
        ScanItemDto {
            path: item.path.clone(),
            kind: String::from_str(item.kind.stable_id()),
            kind_display: String::from_str(item.kind.display_name()),
            size_bytes: item.size_bytes,
            size_display: format_size(item.size_bytes),
            file_count: item.file_count,
        }
    }
}

/// A scan result flattened for presentation.
#[derive(Debug, Clone)]
pub struct ScanResultDto {
    /// All discovered junk items, flattened.
    pub items: Vec<ScanItemDto>,
    /// Total size in bytes.
    pub total_size_bytes: u64,
    /// Human-readable total size.
    pub total_size_display: String,
    /// Total file count.
    pub total_file_count: u64,
    /// Number of items.
    pub item_count: usize,
}

impl ScanResultDto {
    /// The flattened rendering of a scan result: each item flattened in
    /// order, with the saturating totals and their rendering.
    pub fn from_result(result: &ScanResult) -> (r: Self)
        ensures
            r.items@.len() == result.items@.len(),
            forall|i: int|
                0 <= i < result.items@.len() ==> item_dto_of(
                    #[trigger] r.items@[i],
                    result.items@[i],
                ),
            r.total_size_bytes == sum_sizes(result.items@),
            r.total_size_display@ == spec_format_size(sum_sizes(result.items@) as int),
            r.total_file_count == sum_file_counts(result.items@),
            r.item_count == result.items@.len(),
    {
        let mut items: Vec<ScanItemDto> = Vec::new();
        let mut i: usize = 0;
        while i < result.items.len()
            invariant
                i <= result.items@.len(),
                items@.len() == i,
                forall|j: int|
                    0 <= j < i ==> item_dto_of(#[trigger] items@[j], result.items@[j]),
            decreases result.items@.len() - i,
        {
            items.push(ScanItemDto::from_item(&result.items[i]));
            i += 1;
        }
        let total_size_bytes = result.total_size_bytes();
        ScanResultDto {
            items,
            total_size_bytes,
            total_size_display: format_size(total_size_bytes),
            total_file_count: result.total_file_count(),
            item_count: result.item_count(),
        }
    }
}

/// One failed deletion, flattened for presentation.
#[derive(Debug, Clone)]
pub struct CleanFailureDto {
    /// The path that could not be deleted.
    pub path: String,
    /// The error message.
    pub error: String,
}

/// A clean result flattened for presentation.
#[derive(Debug, Clone)]
pub struct CleanResultDto {
    /// Successfully deleted paths.
    pub deleted: Vec<String>,
    /// Number of deleted paths.
    pub deleted_count: usize,
    /// Failed deletions with their messages.
    pub failed: Vec<CleanFailureDto>,
    /// Number of failed paths.
    pub failed_count: usize,
    /// Total bytes freed.
    pub bytes_freed: u64,
    /// Human-readable bytes freed.
    pub bytes_freed_display: String,
    /// Whether the run was a dry run.
    pub was_dry_run: bool,
    /// Whether every attempted deletion succeeded.
    pub is_success: bool,
}

impl CleanResultDto {
    /// The flattened rendering of a clean result.
    pub fn from_result(result: &CleanResult) -> (r: Self)
        ensures
            r.deleted@.len() == result.deleted@.len(),
            forall|i: int|
                0 <= i < result.deleted@.len() ==> (#[trigger] r.deleted@[i])@
                    == result.deleted@[i]@,
            r.deleted_count == result.deleted@.len(),
            r.failed@.len() == result.failed@.len(),
            forall|i: int|
                0 <= i < result.failed@.len() ==> (#[trigger] r.failed@[i]).path@
                    == result.failed@[i].0@ && r.failed@[i].error@ == result.failed@[i].1@,
            r.failed_count == result.failed@.len(),
            r.bytes_freed == result.bytes_freed,
            r.bytes_freed_display@ == spec_format_size(result.bytes_freed as int),
            r.was_dry_run == result.was_dry_run,
            r.is_success == (result.failed@.len() == 0),
    {
        let mut deleted: Vec<String> = Vec::new();
        let mut i: usize = 0;
        while i < result.deleted.len()
            invariant
                i <= result.deleted@.len(),
                deleted@.len() == i,
                forall|j: int|
                    0 <= j < i ==> (#[trigger] deleted@[j])@ == result.deleted@[j]@,
            decreases result.deleted@.len() - i,
        {
            deleted.push(result.deleted[i].clone());
            i += 1;
        }
        let mut failed: Vec<CleanFailureDto> = Vec::new();
        let mut k: usize = 0;
        while k < result.failed.len()
            invariant
                k <= result.failed@.len(),
                failed@.len() == k,
                forall|j: int|
                    0 <= j < k ==> (#[trigger] failed@[j]).path@ == result.failed@[j].0@
                        && failed@[j].error@ == result.failed@[j].1@,
            decreases result.failed@.len() - k,
        {
            failed.push(
                CleanFailureDto {
                    path: result.failed[k].0.clone(),
                    error: result.failed[k].1.clone(),
                },
            );
            k += 1;
        }
        CleanResultDto {
            deleted,
            deleted_count: result.deleted_count(),
            failed,
            failed_count: result.failed_count(),
            bytes_freed: result.bytes_freed,
            bytes_freed_display: format_size(result.bytes_freed),
            was_dry_run: result.was_dry_run,
            is_success: result.is_success(),
        }
    }
}

/// One junk kind, flattened for presentation.
#[derive(Debug, Clone)]
pub struct JunkKindDto {
    /// Stable lower-case identifier.
    pub id: String,
    /// Human-readable name.
    pub display_name: String,
    /// The literal directory-name patterns.
    pub patterns: Vec<String>,
}

impl JunkKindDto {
    /// The flattened rendering of one kind.
    pub fn from_kind(kind: JunkKind) -> (r: Self)
        ensures
            r.id@ == spec_kind_id(kind),
            r.display_name@ == spec_display_name(kind),
            r.patterns@.map_values(|s: String| s@) == kind_patterns(kind),
    {
        let pats = kind.patterns();
        let mut patterns: Vec<String> = Vec::new();
        let mut i: usize = 0;
        while i < pats.len()
            invariant
                i <= pats@.len(),
                patterns@.len() == i,
                forall|j: int|
                    0 <= j < i ==> (#[trigger] patterns@[j])@ == pats@.map_values(
                        |s: &str| s@,
                    )[j],
            decreases pats@.len() - i,
        {
            patterns.push(String::from_str(pats[i]));
            i += 1;
        }
        proof {
            assert(patterns@.map_values(|s: String| s@) =~= kind_patterns(kind));
        }
        JunkKindDto {
            id: String::from_str(kind.stable_id()),
            display_name: String::from_str(kind.display_name()),
            patterns,
        }
    }
}

} // verus!
