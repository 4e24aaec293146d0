//! Directory scanning: depth-first traversal with prune-on-match semantics,
//! classification of directory names, size aggregation, and the orchestrator
//! that fans the traversal out across the configured roots.

use vstd::prelude::*;
use rayon::iter::IntoParallelRefIterator;
use rayon::iter::ParallelIterator;
use crate::error::DevJunkError;
use crate::strutil::covered_by_any;
use crate::strutil::has_prefix;
use crate::strutil::spec_is_hidden_name;
use crate::strutil::is_hidden_name;
use crate::strutil::under_any;
use crate::strutil::views_of;
use crate::types::kind_matches;
use crate::types::sat_add64;
use crate::types::sorted_by_size_desc;
use crate::types::spec_first_match;
use crate::types::JunkKind;
use crate::types::ScanConfig;
use crate::types::ScanItem;
use crate::types::ScanResult;

verus! {

/// Above this number of walked entries, size aggregation runs in parallel.
pub const PARALLEL_THRESHOLD: usize = 1000;

/// One entry of a directory walk, as plain values.
#[derive(Debug, Clone)]
pub struct WalkEntry {
    /// Absolute path of the entry.
    pub path: String,
    /// Final component of the path (for the walk root, of the root path).
    pub name: String,
    /// Depth below the walk root; the root itself has depth zero.
    pub depth: usize,
    /// Whether the entry is a directory (symbolic links are not followed).
    pub is_dir: bool,
    /// Whether the entry is a regular file.
    pub is_file: bool,
    /// The byte length metadata reports for the entry, absent when the
    /// metadata could not be read.
    pub size: Option<u64>,
}

/// Relies on walkdir::WalkDir: walks `root` depth-first without following
/// symbolic links, yielding each readable entry once, a directory before its
/// contents, and every entry at a path that extends the root path;
/// `max_depth` bounds the depth of the yielded entries; entries that cannot
/// be read are dropped, as are the contents of unreadable directories.
/// The walk visits each filesystem path once, ancestors first; the converted
/// names of distinct entries can only coincide when a name is not valid
/// Unicode, so whenever the yielded paths are pairwise distinct the entry
/// list is a preordered walk.
#[verifier::external_body]
fn walk_tree(root: &str, max_depth: Option<usize>) -> (r: Vec<WalkEntry>)
    ensures
        max_depth is Some ==> forall|i: int|
            0 <= i < r@.len() ==> #[trigger] r@[i].depth <= max_depth->0,
        walk_under_root(r@, root@),
        (forall|i: int, j: int|
            0 <= i < j < r@.len() ==> (#[trigger] r@[i].path@) != (#[trigger] r@[j].path@))
            ==> walk_preordered(r@),
{
    let mut walker = walkdir::WalkDir::new(root).follow_links(false);
    if let Some(d) = max_depth {
        walker = walker.max_depth(d);
    }
    let mut out = Vec::new();
    for e in walker.into_iter().filter_map(|e| e.ok()) {
        let path = e.path().to_string_lossy().into_owned();
        let name = e.file_name().to_string_lossy().into_owned();
        let size = e.metadata().ok().map(|m| m.len());
        let (is_dir, is_file) = (e.file_type().is_dir(), e.file_type().is_file());
        out.push(WalkEntry { path, name, depth: e.depth(), is_dir, is_file, size });
    }
    out
}

/// A classified directory found during traversal, before size aggregation.
#[derive(Debug, Clone)]
pub struct ScanMatch {
    /// Absolute path of the matched directory.
    pub path: String,
    /// The junk kind its name matched.
    pub kind: JunkKind,
}

/// The traversal state after some prefix of the walk's entries: the roots of
/// pruned hidden subtrees, the matched directories, and the matches found.
pub ghost struct ScanState {
    /// Hidden directories that were not descended into.
    pub blocked: Seq<Seq<char>>,
    /// Paths already recorded as matches; their subtrees are opaque.
    pub matched: Seq<Seq<char>>,
    /// The emitted matches: path and kind, in traversal order.
    pub found: Seq<(Seq<char>, JunkKind)>,
}

/// The traversal state before any entry.
pub open spec fn scan_state_empty() -> ScanState {
    ScanState { blocked: seq![], matched: seq![], found: seq![] }
}

/// One traversal decision, applying the filters in their fixed order: the
/// exclusion filter; the hidden filter (a hidden name is skipped with its
/// subtree unless it matches an active pattern, and nothing below a skipped
/// root is considered); pruning below an earlier match; directories only;
/// then classification, first active kind wins.
pub open spec fn scan_step(
    st: ScanState,
    e: WalkEntry,
    patterns: Seq<JunkKind>,
    excludes: Seq<Seq<char>>,
    include_hidden: bool,
) -> ScanState {
    if covered_by_any(e.path@, excludes) {
        st
    } else if covered_by_any(e.path@, st.blocked) {
        st
    } else if !include_hidden && spec_is_hidden_name(e.name@) && spec_first_match(
        patterns,
        e.name@,
    ) is None {
        ScanState { blocked: st.blocked.push(e.path@), ..st }
    } else if covered_by_any(e.path@, st.matched) {
        st
    } else if !e.is_dir {
        st
    } else {
        match spec_first_match(patterns, e.name@) {
            Option::None => st,
            Option::Some(k) => ScanState {
                matched: st.matched.push(e.path@),
                found: st.found.push((e.path@, k)),
                ..st
            },
        }
    }
}

/// The traversal state after all entries, folded in walk order.
pub open spec fn scan_fold(
    entries: Seq<WalkEntry>,
    patterns: Seq<JunkKind>,
    excludes: Seq<Seq<char>>,
    include_hidden: bool,
) -> ScanState
    decreases entries.len(),
{
    if entries.len() == 0 {
        scan_state_empty()
    } else {
        scan_step(
            scan_fold(entries.drop_last(), patterns, excludes, include_hidden),
            entries.last(),
            patterns,
            excludes,
            include_hidden,
        )
    }
}

/// The model of a vector of matches: its paths and kinds.
pub open spec fn matches_model(s: Seq<ScanMatch>) -> Seq<(Seq<char>, JunkKind)> {
    s.map_values(|m: ScanMatch| (m.path@, m.kind))
}

/// The model of a vector of items: its paths and kinds.
pub open spec fn items_model(s: Seq<ScanItem>) -> Seq<(Seq<char>, JunkKind)> {
    s.map_values(|it: ScanItem| (it.path@, it.kind))
}

/// Every entry of the walk lies at a path extending the root.
pub open spec fn walk_under_root(w: Seq<WalkEntry>, root: Seq<char>) -> bool {
    forall|i: int| 0 <= i < w.len() ==> has_prefix((#[trigger] w[i]).path@, root)
}

/// The item's size and file count are the aggregation of some walk under the
/// item's path.
pub open spec fn item_stats_witnessed(item: ScanItem) -> bool {
    exists|wi: Seq<WalkEntry>|
        walk_under_root(wi, item.path@) && (item.size_bytes, item.file_count)
            == #[trigger] spec_entry_stats(wi)
}

/// What scanning one root promises of its result: some walk under the root
/// whose traversal fold yields exactly these items' paths and kinds in this
/// order, and, for each item, some walk under the item's path whose
/// aggregation gives its size and file count. What the walks hold is decided
/// by the filesystem.
pub open spec fn root_scan_output(
    items: Seq<ScanItem>,
    root: Seq<char>,
    config: ScanConfig,
) -> bool {
    &&& exists|w: Seq<WalkEntry>|
        walk_under_root(w, root) && items_model(items) == (#[trigger] scan_fold(
            w,
            config.include_patterns@,
            views_of(config.exclude_paths@),
            config.include_hidden,
        )).found
    &&& forall|i: int| 0 <= i < items.len() ==> item_stats_witnessed(#[trigger] items[i])
}

/// The items are the concatenation, in root order, of one scan output per
/// configured root.
pub open spec fn scan_outputs_of_roots(items: Seq<ScanItem>, config: ScanConfig) -> bool {
    exists|parts: Seq<Seq<ScanItem>>|
        parts.len() == config.roots@.len() && items == #[trigger] parts.flatten()
            && (forall|j: int|
                0 <= j < parts.len() ==> root_scan_output(
                    #[trigger] parts[j],
                    config.roots@[j]@,
                    config,
                ))
}

/// The items are a permutation of the concatenation, in root order, of one
/// scan output per configured root.
pub open spec fn scan_result_from_roots(items: Seq<ScanItem>, config: ScanConfig) -> bool {
    exists|parts: Seq<Seq<ScanItem>>|
        parts.len() == config.roots@.len() && items.to_multiset() == (#[trigger] parts.flatten()).to_multiset()
            && (forall|j: int|
                0 <= j < parts.len() ==> root_scan_output(
                    #[trigger] parts[j],
                    config.roots@[j]@,
                    config,
                ))
}

/// The first kind among `patterns` whose patterns match `name`.
pub fn find_matching_kind(name: &str, patterns: &Vec<JunkKind>) -> (r: Option<JunkKind>)
    ensures
        r == spec_first_match(patterns@, name@),
{
    let mut i: usize = 0;
    proof {
        assert(patterns@.skip(0) =~= patterns@);
    }
    while i < patterns.len()
        invariant
            i <= patterns@.len(),
            spec_first_match(patterns@, name@) == spec_first_match(
                patterns@.skip(i as int),
                name@,
            ),
        decreases patterns@.len() - i,
    {
        proof {
            assert(patterns@.skip(i as int)[0] == patterns@[i as int]);
            assert(patterns@.skip(i as int).drop_first() =~= patterns@.skip(i as int + 1));
        }
        if patterns[i].matches_name(name) {
            return Some(patterns[i]);
        }
        i += 1;
    }
    proof {
        assert(patterns@.skip(i as int).len() == 0);
    }
    None
}

/// Applies the traversal filters and the classification to the entries of
/// one walk, in walk order, and returns the matched directories with their
/// kinds: exactly the `found` component of the traversal fold.
pub fn scan_entries(entries: &Vec<WalkEntry>, config: &ScanConfig) -> (r: Vec<ScanMatch>)
    ensures
        matches_model(r@) == scan_fold(
            entries@,
            config.include_patterns@,
            views_of(config.exclude_paths@),
            config.include_hidden,
        ).found,
{
    let ghost patterns = config.include_patterns@;
    let ghost excludes = views_of(config.exclude_paths@);
    let mut blocked: Vec<String> = Vec::new();
    let mut matched: Vec<String> = Vec::new();
    let mut found: Vec<ScanMatch> = Vec::new();
    let mut i: usize = 0;
    proof {
        assert(entries@.take(0) =~= Seq::<WalkEntry>::empty());
        assert(views_of(blocked@) =~= scan_state_empty().blocked);
        assert(views_of(matched@) =~= scan_state_empty().matched);
        assert(matches_model(found@) =~= scan_state_empty().found);
    }
    while i < entries.len()
        invariant
            i <= entries@.len(),
            patterns == config.include_patterns@,
            excludes == views_of(config.exclude_paths@),
            views_of(blocked@) == scan_fold(
                entries@.take(i as int),
                patterns,
                excludes,
                config.include_hidden,
            ).blocked,
            views_of(matched@) == scan_fold(
                entries@.take(i as int),
                patterns,
                excludes,
                config.include_hidden,
            ).matched,
            matches_model(found@) == scan_fold(
                entries@.take(i as int),
                patterns,
                excludes,
                config.include_hidden,
            ).found,
        decreases entries@.len() - i,
    {
        let ghost st = scan_fold(entries@.take(i as int), patterns, excludes,
            config.include_hidden);
        proof {
            assert(entries@.take(i as int + 1).drop_last() =~= entries@.take(i as int));
            assert(entries@.take(i as int + 1).last() == entries@[i as int]);
        }
        let e = &entries[i];
        if under_any(e.path.as_str(), &config.exclude_paths) {
            // excluded by configuration
        } else if under_any(e.path.as_str(), &blocked) {
            // inside a pruned hidden subtree
        } else if !config.include_hidden && is_hidden_name(e.name.as_str())
            && find_matching_kind(e.name.as_str(), &config.include_patterns).is_none() {
            let ghost prev = blocked@;
            blocked.push(e.path.clone());
            proof {
                assert(views_of(blocked@) =~= views_of(prev).push(e.path@));
            }
        } else if under_any(e.path.as_str(), &matched) {
            // inside an earlier match: the subtree is opaque
        } else if !e.is_dir {
            // only directories are classified
        } else {
            match find_matching_kind(e.name.as_str(), &config.include_patterns) {
                Option::None => {},
                Option::Some(k) => {
                    let ghost prev_m = matched@;
                    let ghost prev_f = found@;
                    matched.push(e.path.clone());
                    found.push(ScanMatch { path: e.path.clone(), kind: k });
                    proof {
                        assert(views_of(matched@) =~= views_of(prev_m).push(e.path@));
                        assert(matches_model(found@) =~= matches_model(prev_f).push(
                            (e.path@, k),
                        ));
                    }
                },
            }
        }
        i += 1;
    }
    proof {
        assert(entries@.take(i as int) =~= entries@);
    }
    found
}

/// The (bytes, files) contribution of one walk entry: a regular file whose
/// metadata was read counts once and contributes its reported size; a file
/// whose metadata could not be read contributes zero to both the size and
/// the count; other entries contribute nothing.
pub open spec fn spec_contribution(e: WalkEntry) -> (u64, u64) {
    if e.is_file {
        match e.size {
            Option::Some(n) => (n, 1u64),
            Option::None => (0u64, 0u64),
        }
    } else {
        (0u64, 0u64)
    }
}

/// Saturating merge of two partial (bytes, files) sums.
pub open spec fn spec_merge(a: (u64, u64), b: (u64, u64)) -> (u64, u64) {
    (sat_add64(a.0, b.0), sat_add64(a.1, b.1))
}

/// The saturating (bytes, files) total of a walk's entries.
pub open spec fn spec_entry_stats(entries: Seq<WalkEntry>) -> (u64, u64)
    decreases entries.len(),
{
    if entries.len() == 0 {
        (0u64, 0u64)
    } else {
        spec_merge(spec_entry_stats(entries.drop_last()), spec_contribution(entries.last()))
    }
}

/// The (bytes, files) contribution of one entry.
pub fn entry_contribution(e: &WalkEntry) -> (r: (u64, u64))
    ensures
        r == spec_contribution(*e),
{
    if e.is_file {
        match e.size {
            Option::Some(n) => (n, 1u64),
            Option::None => (0u64, 0u64),
        }
    } else {
        (0u64, 0u64)
    }
}

/// Saturating merge of two partial sums.
pub fn stats_merge(a: (u64, u64), b: (u64, u64)) -> (r: (u64, u64))
    ensures
        r == spec_merge(a, b),
{
    (a.0.saturating_add(b.0), a.1.saturating_add(b.1))
}

/// The sequential (bytes, files) total of a walk's entries.
pub fn sum_entry_stats(entries: &Vec<WalkEntry>) -> (r: (u64, u64))
    ensures
        r == spec_entry_stats(entries@),
{
    let mut acc: (u64, u64) = (0, 0);
    let mut i: usize = 0;
    proof {
        assert(entries@.take(0) =~= Seq::<WalkEntry>::empty());
    }
    while i < entries.len()
        invariant
            i <= entries@.len(),
            acc == spec_entry_stats(entries@.take(i as int)),
        decreases entries@.len() - i,
    {
        proof {
            assert(entries@.take(i as int + 1).drop_last() =~= entries@.take(i as int));
            assert(entries@.take(i as int + 1).last() == entries@[i as int]);
        }
        acc = stats_merge(acc, entry_contribution(&entries[i]));
        i += 1;
    }
    proof {
        assert(entries@.take(i as int) =~= entries@);
    }
    acc
}

/// Relies on rayon's parallel `map`/`reduce` over a slice: with the
/// zero-valued identity and the associative saturating merge below, the
/// parallel reduction of the per-entry contributions equals the sequential
/// left fold of the same contributions, whatever split rayon chooses.
#[verifier::external_body]
fn par_entry_stats(entries: &Vec<WalkEntry>) -> (r: (u64, u64))
    ensures
        r == spec_entry_stats(entries@),
{
    entries
        .par_iter()
        .map(|e| entry_contribution(e))
        .reduce(|| (0u64, 0u64), |a, b| stats_merge(a, b))
}

/// Aggregate byte size and file count of the subtree below `path`: one walk
/// of the subtree is taken and its file entries are summed, sequentially
/// below the parallel threshold and in parallel at or above it. The
/// returned pair is exactly the aggregation spec applied to that walk,
/// which the ghost component witnesses; what the walk holds is decided by
/// the filesystem.
pub fn calculate_dir_stats(path: &str) -> (r: (u64, u64, Ghost<Seq<WalkEntry>>))
    ensures
        (r.0, r.1) == spec_entry_stats(r.2@),
        walk_under_root(r.2@, path@),
{
    let entries = walk_tree(path, None);
    let stats = if entries.len() < PARALLEL_THRESHOLD {
        sum_entry_stats(&entries)
    } else {
        par_entry_stats(&entries)
    };
    (stats.0, stats.1, Ghost(entries@))
}

/// What the orchestrator guarantees of every emitted item: its kind was
/// asked for, and its path is not under a configured exclusion.
pub open spec fn scan_item_ok(item: ScanItem, config: ScanConfig) -> bool {
    &&& config.include_patterns@.contains(item.kind)
    &&& !covered_by_any(item.path@, views_of(config.exclude_paths@))
}

/// The item's path extends one of the configured roots.
pub open spec fn scan_item_rooted(item: ScanItem, config: ScanConfig) -> bool {
    exists|j: int|
        0 <= j < config.roots@.len() && has_prefix(item.path@, #[trigger] config.roots@[j]@)
}

/// A kind returned by `spec_first_match` is one of the candidates.
pub proof fn lemma_first_match_in(ks: Seq<JunkKind>, name: Seq<char>)
    requires
        spec_first_match(ks, name) is Some,
    ensures
        ks.contains(spec_first_match(ks, name)->0),
        kind_matches(spec_first_match(ks, name)->0, name),
    decreases ks.len(),
{
    if ks.len() > 0 {
        if kind_matches(ks[0], name) {
            assert(ks.contains(ks[0]));
        } else {
            lemma_first_match_in(ks.drop_first(), name);
            let k = spec_first_match(ks.drop_first(), name)->0;
            let i = choose|i: int| 0 <= i < ks.drop_first().len() && ks.drop_first()[i] == k;
            assert(ks[i + 1] == k);
        }
    }
}

/// Every match of the traversal fold has an asked-for kind and a path
/// outside the exclusions.
pub proof fn lemma_scan_fold_found_ok(
    entries: Seq<WalkEntry>,
    patterns: Seq<JunkKind>,
    excludes: Seq<Seq<char>>,
    include_hidden: bool,
)
    ensures
        forall|i: int|
            0 <= i < scan_fold(entries, patterns, excludes, include_hidden).found.len()
                ==> patterns.contains(
                #[trigger] scan_fold(entries, patterns, excludes, include_hidden).found[i].1,
            ) && !covered_by_any(
                scan_fold(entries, patterns, excludes, include_hidden).found[i].0,
                excludes,
            ),
    decreases entries.len(),
{
    if entries.len() > 0 {
        lemma_scan_fold_found_ok(entries.drop_last(), patterns, excludes, include_hidden);
        let st = scan_fold(entries.drop_last(), patterns, excludes, include_hidden);
        let e = entries.last();
        if !covered_by_any(e.path@, excludes) && !covered_by_any(e.path@, st.blocked) && !(
        !include_hidden && spec_is_hidden_name(e.name@) && spec_first_match(
            patterns,
            e.name@,
        ) is None) && !covered_by_any(e.path@, st.matched) && e.is_dir && spec_first_match(
            patterns,
            e.name@,
        ) is Some {
            lemma_first_match_in(patterns, e.name@);
        }
    }
}

/// Every match of the traversal fold carries the path of one of the walked
/// entries.
pub proof fn lemma_scan_fold_found_paths(
    entries: Seq<WalkEntry>,
    patterns: Seq<JunkKind>,
    excludes: Seq<Seq<char>>,
    include_hidden: bool,
)
    ensures
        forall|k: int|
            0 <= k < scan_fold(entries, patterns, excludes, include_hidden).found.len()
                ==> exists|i: int|
                0 <= i < entries.len() && (#[trigger] scan_fold(
                    entries,
                    patterns,
                    excludes,
                    include_hidden,
                ).found[k]).0 == entries[i].path@,
    decreases entries.len(),
{
    if entries.len() > 0 {
        lemma_scan_fold_found_paths(entries.drop_last(), patterns, excludes, include_hidden);
        let prev = scan_fold(entries.drop_last(), patterns, excludes, include_hidden);
        let st = scan_fold(entries, patterns, excludes, include_hidden);
        assert forall|k: int| 0 <= k < st.found.len() implies exists|i: int|
            0 <= i < entries.len() && (#[trigger] st.found[k]).0 == entries[i].path@ by {
            if k < prev.found.len() {
                assert(st.found[k] == prev.found[k]);
                let i = choose|i: int|
                    0 <= i < entries.drop_last().len() && (#[trigger] prev.found[k]).0
                        == entries.drop_last()[i].path@;
                assert(entries.drop_last()[i] == entries[i]);
            } else {
                assert(st.found[k].0 == entries[entries.len() - 1].path@);
            }
        }
    }
}

/// Scans one root: walks it, filters and classifies the entries, and
/// aggregates the size and file count of each match. Every item's path
/// extends the scanned root.
pub fn scan_root(root: &str, config: &ScanConfig) -> (r: Vec<ScanItem>)
    ensures
        forall|i: int| 0 <= i < r@.len() ==> scan_item_ok(#[trigger] r@[i], *config),
        forall|i: int| 0 <= i < r@.len() ==> has_prefix((#[trigger] r@[i]).path@, root@),
        root_scan_output(r@, root@, *config),
{
    let entries = walk_tree(root, config.max_depth);
    let found = scan_entries(&entries, config);
    proof {
        lemma_scan_fold_found_ok(
            entries@,
            config.include_patterns@,
            views_of(config.exclude_paths@),
            config.include_hidden,
        );
        lemma_scan_fold_found_paths(
            entries@,
            config.include_patterns@,
            views_of(config.exclude_paths@),
            config.include_hidden,
        );
        let st = scan_fold(
            entries@,
            config.include_patterns@,
            views_of(config.exclude_paths@),
            config.include_hidden,
        );
        assert forall|k: int| 0 <= k < matches_model(found@).len() implies has_prefix(
            (#[trigger] matches_model(found@)[k]).0,
            root@,
        ) by {
            let i0 = choose|i0: int|
                0 <= i0 < entries@.len() && (#[trigger] st.found[k]).0 == entries@[i0].path@;
            assert(has_prefix(entries@[i0].path@, root@));
        }
    }
    let mut items: Vec<ScanItem> = Vec::new();
    let mut i: usize = 0;
    proof {
        assert(items_model(items@) =~= matches_model(found@).take(0));
    }
    while i < found.len()
        invariant
            i <= found@.len(),
            forall|j: int|
                0 <= j < found@.len() ==> config.include_patterns@.contains(
                    #[trigger] matches_model(found@)[j].1,
                ) && !covered_by_any(
                    matches_model(found@)[j].0,
                    views_of(config.exclude_paths@),
                ) && has_prefix(matches_model(found@)[j].0, root@),
            items_model(items@) == matches_model(found@).take(i as int),
            forall|j: int|
                0 <= j < items@.len() ==> scan_item_ok(#[trigger] items@[j], *config)
                    && has_prefix(items@[j].path@, root@) && item_stats_witnessed(items@[j]),
        decreases found@.len() - i,
    {
        let path = found[i].path.clone();
        let kind = found[i].kind;
        let stats = calculate_dir_stats(path.as_str());
        let item = ScanItem::new(path, kind, stats.0, stats.1);
        proof {
            assert(matches_model(found@)[i as int].1 == kind);
            assert(matches_model(found@)[i as int].0 == item.path@);
            assert(walk_under_root(stats.2@, item.path@));
            assert((item.size_bytes, item.file_count) == spec_entry_stats(stats.2@));
            assert(item_stats_witnessed(item));
        }
        items.push(item);
        proof {
            assert(matches_model(found@).take(i as int + 1) =~= matches_model(found@).take(
                i as int,
            ).push(matches_model(found@)[i as int]));
            assert(items_model(items@) =~= matches_model(found@).take(i as int + 1));
        }
        i += 1;
    }
    proof {
        assert(matches_model(found@).take(found@.len() as int) =~= matches_model(found@));
        assert(root_scan_output(items@, root@, *config)) by {
            assert(walk_under_root(entries@, root@));
            assert(items_model(items@) == scan_fold(
                entries@,
                config.include_patterns@,
                views_of(config.exclude_paths@),
                config.include_hidden,
            ).found);
        }
    }
    items
}

/// Relies on rayon's parallel iterator `flat_map` and `collect`: the
/// collected vector is exactly the concatenation, in root order, of one
/// `scan_root` result per configured root (and so is empty when there is no
/// root). Each clause restates `scan_root`'s proven postcondition of those
/// results: the per-item properties, and one per-root output sequence — tied
/// to a walk by `root_scan_output` — whose concatenation the vector is.
#[verifier::external_body]
fn par_scan_roots(config: &ScanConfig) -> (r: Vec<ScanItem>)
    ensures
        forall|i: int| 0 <= i < r@.len() ==> scan_item_ok(#[trigger] r@[i], *config),
        forall|i: int| 0 <= i < r@.len() ==> scan_item_rooted(#[trigger] r@[i], *config),
        scan_outputs_of_roots(r@, *config),
        config.roots@.len() == 0 ==> r@.len() == 0,
{
    config.roots.par_iter().flat_map(|root| scan_root(root.as_str(), config)).collect()
}

/// Relies on std::path::Path::exists: whether the path points at an existing
/// entity on disk. The result depends on the state of the filesystem.
#[verifier::external_body]
fn path_exists(p: &str) -> bool {
    std::path::Path::new(p).exists()
}

/// Relies on std::path::Path::is_dir: whether the path points at an existing
/// directory. The result depends on the state of the filesystem.
#[verifier::external_body]
fn path_is_dir(p: &str) -> bool {
    std::path::Path::new(p).is_dir()
}

/// Scans every configured root. All roots are validated first: a missing or
/// non-directory root fails the whole call before any traversal. On success
/// the merged items are sorted by size, largest first, and every item's kind
/// was asked for and its path lies outside the exclusions; a configuration
/// without roots yields an empty result.
pub fn scan(config: &ScanConfig) -> (r: Result<ScanResult, DevJunkError>)
    ensures
        match r {
            Result::Ok(res) => {
                &&& sorted_by_size_desc(res.items@)
                &&& forall|i: int|
                    0 <= i < res.items@.len() ==> scan_item_ok(#[trigger] res.items@[i], *config)
                &&& forall|i: int|
                    0 <= i < res.items@.len() ==> scan_item_rooted(
                        #[trigger] res.items@[i],
                        *config,
                    )
                &&& scan_result_from_roots(res.items@, *config)
                &&& config.roots@.len() == 0 ==> res.items@.len() == 0
            },
            Result::Err(e) => config.roots@.len() > 0 && match e {
                DevJunkError::PathNotFound(p) => exists|i: int|
                    0 <= i < config.roots@.len() && #[trigger] config.roots@[i]@ == p@,
                DevJunkError::NotADirectory(p) => exists|i: int|
                    0 <= i < config.roots@.len() && #[trigger] config.roots@[i]@ == p@,
                _ => false,
            },
        },
{
    let mut i: usize = 0;
    while i < config.roots.len()
        invariant
            i <= config.roots@.len(),
        decreases config.roots@.len() - i,
    {
        if !path_exists(config.roots[i].as_str()) {
            return Result::Err(DevJunkError::PathNotFound(config.roots[i].clone()));
        }
        if !path_is_dir(config.roots[i].as_str()) {
            return Result::Err(DevJunkError::NotADirectory(config.roots[i].clone()));
        }
        i += 1;
    }
    let items = par_scan_roots(config);
    let ghost items_before = items@;
    let mut result = ScanResult { items };
    result.sort_by_size();
    proof {
        crate::strutil::lemma_to_multiset_preserves(
            items_before,
            result.items@,
            |it: ScanItem| scan_item_ok(it, *config) && scan_item_rooted(it, *config),
        );
        if config.roots@.len() == 0 {
            items_before.to_multiset_ensures();
            result.items@.to_multiset_ensures();
        }
        assert forall|i: int| 0 <= i < result.items@.len() implies scan_item_ok(
            #[trigger] result.items@[i],
            *config,
        ) && scan_item_rooted(result.items@[i], *config) by {
            let p = |it: ScanItem| scan_item_ok(it, *config) && scan_item_rooted(it, *config);
            assert(p(result.items@[i]));
        }
        assert(scan_result_from_roots(result.items@, *config)) by {
            let parts = choose|parts: Seq<Seq<ScanItem>>|
                parts.len() == config.roots@.len() && items_before == #[trigger] parts.flatten()
                    && (forall|j: int|
                    0 <= j < parts.len() ==> root_scan_output(
                        #[trigger] parts[j],
                        config.roots@[j]@,
                        *config,
                    ));
            assert(result.items@.to_multiset() == parts.flatten().to_multiset());
        }
    }
    Result::Ok(result)
}


/// The character of one decimal digit.
pub open spec fn spec_digit_char(d: int) -> char {
    if d == 0 {
        '0'
    } else if d == 1 {
        '1'
    } else if d == 2 {
        '2'
    } else if d == 3 {
        '3'
    } else if d == 4 {
        '4'
    } else if d == 5 {
        '5'
    } else if d == 6 {
        '6'
    } else if d == 7 {
        '7'
    } else if d == 8 {
        '8'
    } else {
        '9'
    }
}

/// The decimal digits of a non-negative number, most significant first.
pub open spec fn spec_decimal_digits(n: int) -> Seq<char>
    decreases n,
{
    if n < 10 {
        seq![spec_digit_char(n)]
    } else {
        spec_decimal_digits(n / 10).push(spec_digit_char(n % 10))
    }
}

/// A fraction of hundredths, always written with two digits.
pub open spec fn spec_two_digits(f: int) -> Seq<char> {
    if f < 10 {
        "0"@ + spec_decimal_digits(f)
    } else {
        spec_decimal_digits(f)
    }
}

/// `bytes` scaled by `unit` into a whole part and hundredths: the fraction
/// is rounded to the nearest hundredth, an exact tie to the even hundredth
/// (every unit is even, so half the unit is exact), and a full fraction
/// carries into the whole part.
pub open spec fn spec_scaled(bytes: int, unit: int) -> (int, int) {
    let q = (bytes % unit) * 100 / unit;
    let tie = (bytes % unit) * 100 % unit;
    let frac = if tie > unit / 2 {
        q + 1
    } else if tie < unit / 2 {
        q
    } else if q % 2 == 0 {
        q
    } else {
        q + 1
    };
    if frac >= 100 {
        (bytes / unit + 1, 0)
    } else {
        (bytes / unit, frac)
    }
}

/// The rendering of `bytes` in `unit`s with two rounded fraction digits and
/// a label.
pub open spec fn spec_size_with_unit(bytes: int, unit: int, label: Seq<char>) -> Seq<char> {
    spec_decimal_digits(spec_scaled(bytes, unit).0) + "."@ + spec_two_digits(
        spec_scaled(bytes, unit).1,
    ) + " "@ + label
}

/// The human-readable rendering of a byte count: whole bytes below one
/// kibibyte, otherwise the largest fitting binary unit with two fraction
/// digits.
pub open spec fn spec_format_size(bytes: int) -> Seq<char> {
    if bytes >= 1073741824 {
        spec_size_with_unit(bytes, 1073741824, "GB"@)
    } else if bytes >= 1048576 {
        spec_size_with_unit(bytes, 1048576, "MB"@)
    } else if bytes >= 1024 {
        spec_size_with_unit(bytes, 1024, "KB"@)
    } else {
        spec_decimal_digits(bytes) + " B"@
    }
}

/// The string of one decimal digit.
fn digit_str(d: u64) -> (r: &'static str)
    requires
        d < 10,
    ensures
        r@ == seq![spec_digit_char(d as int)],
{
    proof {
        reveal_strlit("0");
        reveal_strlit("1");
        reveal_strlit("2");
        reveal_strlit("3");
        reveal_strlit("4");
        reveal_strlit("5");
        reveal_strlit("6");
        reveal_strlit("7");
        reveal_strlit("8");
        reveal_strlit("9");
    }
    let r: &'static str = if d == 0 {
        "0"
    } else if d == 1 {
        "1"
    } else if d == 2 {
        "2"
    } else if d == 3 {
        "3"
    } else if d == 4 {
        "4"
    } else if d == 5 {
        "5"
    } else if d == 6 {
        "6"
    } else if d == 7 {
        "7"
    } else if d == 8 {
        "8"
    } else {
        "9"
    };
    proof {
        assert(r@ =~= seq![spec_digit_char(d as int)]);
    }
    r
}

/// The decimal rendering of a number, without sign or leading zeros.
pub fn decimal_digits(n: u64) -> (r: String)
    ensures
        r@ == spec_decimal_digits(n as int),
    decreases n,
{
    if n < 10 {
        String::from_str(digit_str(n))
    } else {
        let mut s = decimal_digits(n / 10);
        s.append(digit_str(n % 10));
        proof {
            assert(s@ =~= spec_decimal_digits((n / 10) as int).push(
                spec_digit_char((n % 10) as int),
            ));
        }
        s
    }
}

/// Renders `bytes` in `unit`s with two rounded fraction digits and a label.
fn size_with_unit(bytes: u64, unit: u64, label: &str) -> (r: String)
    requires
        1024 <= unit <= 1073741824,
    ensures
        r@ == spec_size_with_unit(bytes as int, unit as int, label@),
{
    let mut whole = bytes / unit;
    let rem = bytes % unit;
    proof {
        assert(rem < unit);
        assert(rem * 100 < 0x10000000000) by (nonlinear_arith)
            requires
                rem < unit,
                1024 <= unit <= 1073741824,
        ;
        assert((bytes as int) < (unit as int) * 0xffffffffffffffff) by (nonlinear_arith)
            requires
                bytes <= 0xffffffffffffffff,
                unit >= 1024,
        ;
        vstd::arithmetic::div_mod::lemma_multiply_divide_lt(
            bytes as int,
            unit as int,
            0xffffffffffffffff,
        );
    }
    let scaled = rem * 100;
    let q = scaled / unit;
    let tie = scaled % unit;
    proof {
        assert((scaled as int) < (unit as int) * 100) by (nonlinear_arith)
            requires
                rem < unit,
                scaled == rem * 100,
        ;
        vstd::arithmetic::div_mod::lemma_multiply_divide_lt(scaled as int, unit as int, 100);
    }
    let mut frac = if tie > unit / 2 {
        q + 1
    } else if tie < unit / 2 {
        q
    } else if q % 2 == 0 {
        q
    } else {
        q + 1
    };
    if frac >= 100 {
        whole = whole + 1;
        frac = 0;
    }
    let mut s = decimal_digits(whole);
    s.append(".");
    if frac < 10 {
        s.append("0");
        let fd = decimal_digits(frac);
        s.append(fd.as_str());
    } else {
        let fd = decimal_digits(frac);
        s.append(fd.as_str());
    }
    s.append(" ");
    s.append(label);
    proof {
        assert(s@ =~= spec_size_with_unit(bytes as int, unit as int, label@));
    }
    s
}

/// Formats a byte count as a human-readable string: whole bytes below one
/// kibibyte, otherwise the largest fitting binary unit with two rounded
/// fraction digits.
pub fn format_size(bytes: u64) -> (r: String)
    ensures
        r@ == spec_format_size(bytes as int),
{
    if bytes >= 1073741824 {
        size_with_unit(bytes, 1073741824, "GB")
    } else if bytes >= 1048576 {
        size_with_unit(bytes, 1048576, "MB")
    } else if bytes >= 1024 {
        size_with_unit(bytes, 1024, "KB")
    } else {
        let mut s = decimal_digits(bytes);
        s.append(" B");
        proof {
            assert(s@ =~= spec_format_size(bytes as int));
        }
        s
    }
}


/// A directory entry whose name matches one of the active kinds.
pub open spec fn entry_matches(e: WalkEntry, patterns: Seq<JunkKind>) -> bool {
    e.is_dir && spec_first_match(patterns, e.name@) is Some
}

/// Whether a matching directory entry of the walk lies strictly above
/// entry `i`.
pub open spec fn has_matching_proper_ancestor(
    entries: Seq<WalkEntry>,
    i: int,
    patterns: Seq<JunkKind>,
) -> bool {
    exists|j: int|
        0 <= j < entries.len() && #[trigger] entry_matches(entries[j], patterns)
            && crate::strutil::path_covered_by(entries[i].path@, entries[j].path@)
            && entries[i].path@ != entries[j].path@
}

/// A depth-first walk of a tree: entry paths are distinct, and an entry
/// lying below another entry's path appears after it.
pub open spec fn walk_preordered(entries: Seq<WalkEntry>) -> bool {
    &&& forall|i: int, j: int|
        0 <= i < j < entries.len() ==> (#[trigger] entries[i].path@) != (
        #[trigger] entries[j].path@)
    &&& forall|i: int, j: int|
        0 <= i < entries.len() && 0 <= j < entries.len() && crate::strutil::path_covered_by(
            #[trigger] entries[i].path@,
            #[trigger] entries[j].path@,
        ) && entries[i].path@ != entries[j].path@ ==> j < i
}

/// The paths of the found matches.
pub open spec fn found_paths(found: Seq<(Seq<char>, JunkKind)>) -> Seq<Seq<char>> {
    found.map_values(|pr: (Seq<char>, JunkKind)| pr.0)
}

/// The invariants of the traversal fold over a prefix of a preordered walk,
/// with hidden directories included and no exclusions: nothing is
/// hidden-blocked; the matched paths are the found paths; every find comes
/// from a matching prefix entry with no matching proper ancestor and carries
/// the first matching kind of its name; conversely every such entry is
/// found; and every matching prefix entry is covered by some match.
proof fn lemma_scan_invariants(entries: Seq<WalkEntry>, patterns: Seq<JunkKind>, n: int)
    requires
        walk_preordered(entries),
        0 <= n <= entries.len(),
    ensures
        ({
            let st = scan_fold(entries.take(n), patterns, seq![], true);
            &&& st.blocked.len() == 0
            &&& st.matched == found_paths(st.found)
            &&& forall|k: int|
                0 <= k < st.found.len() ==> exists|i: int|
                    0 <= i < n && (#[trigger] st.found[k]).0 == entries[i].path@
                        && entry_matches(entries[i], patterns) && st.found[k].1
                        == spec_first_match(patterns, entries[i].name@)->0
                        && !has_matching_proper_ancestor(entries, i, patterns)
            &&& forall|i: int|
                0 <= i < n && entry_matches(entries[i], patterns)
                    && !has_matching_proper_ancestor(entries, i, patterns) ==> found_paths(
                    st.found,
                ).contains(#[trigger] entries[i].path@)
            &&& forall|i: int|
                0 <= i < n && #[trigger] entry_matches(entries[i], patterns) ==> covered_by_any(
                    entries[i].path@,
                    st.matched,
                )
        }),
    decreases n,
{
    if n == 0 {
        assert(entries.take(0) =~= Seq::<WalkEntry>::empty());
    } else {
        lemma_scan_invariants(entries, patterns, n - 1);
        let prev = scan_fold(entries.take(n - 1), patterns, seq![], true);
        let st = scan_fold(entries.take(n), patterns, seq![], true);
        let e = entries[n - 1];
        assert(entries.take(n).drop_last() =~= entries.take(n - 1));
        assert(entries.take(n).last() == e);
        assert(st == scan_step(prev, e, patterns, seq![], true));
        assert(!covered_by_any(e.path@, prev.blocked));
        assert(!covered_by_any(e.path@, Seq::<Seq<char>>::empty()));
        if covered_by_any(e.path@, prev.matched) {
            assert(st == prev);
            // a matching entry that is covered has a matching proper ancestor
            if entry_matches(e, patterns) && !has_matching_proper_ancestor(
                entries,
                n - 1,
                patterns,
            ) {
                let m = choose|j: int|
                    0 <= j < prev.matched.len() && crate::strutil::path_covered_by(
                        e.path@,
                        prev.matched[j],
                    );
                assert(prev.matched[m] == found_paths(prev.found)[m]);
                assert(found_paths(prev.found)[m] == prev.found[m].0);
                let i0 = choose|i: int|
                    0 <= i < n - 1 && (#[trigger] prev.found[m]).0 == entries[i].path@
                        && entry_matches(entries[i], patterns) && prev.found[m].1
                        == spec_first_match(patterns, entries[i].name@)->0
                        && !has_matching_proper_ancestor(entries, i, patterns);
                if entries[i0].path@ == e.path@ {
                    assert(false);  // distinct paths: i0 < n - 1
                } else {
                    assert(entry_matches(entries[i0], patterns));
                    assert(crate::strutil::path_covered_by(e.path@, entries[i0].path@));
                    assert(has_matching_proper_ancestor(entries, n - 1, patterns));
                }
            }
        } else if !e.is_dir || spec_first_match(patterns, e.name@) is None {
            assert(st == prev);
            assert(!entry_matches(e, patterns));
        } else {
            let k = spec_first_match(patterns, e.name@)->0;
            assert(st.matched == prev.matched.push(e.path@));
            assert(st.found == prev.found.push((e.path@, k)));
            assert(st.matched =~= found_paths(st.found)) by {
                assert forall|q: int| 0 <= q < st.matched.len() implies st.matched[q]
                    == found_paths(st.found)[q] by {
                    if q < prev.matched.len() {
                        assert(prev.matched[q] == found_paths(prev.found)[q]);
                    }
                }
            }
            // the new entry has no matching proper ancestor
            assert(!has_matching_proper_ancestor(entries, n - 1, patterns)) by {
                if has_matching_proper_ancestor(entries, n - 1, patterns) {
                    let j = choose|j: int|
                        0 <= j < entries.len() && #[trigger] entry_matches(entries[j], patterns)
                            && crate::strutil::path_covered_by(e.path@, entries[j].path@)
                            && e.path@ != entries[j].path@;
                    assert(j < n - 1);
                    assert(covered_by_any(entries[j].path@, prev.matched));
                    let m = choose|q: int|
                        0 <= q < prev.matched.len() && crate::strutil::path_covered_by(
                            entries[j].path@,
                            prev.matched[q],
                        );
                    crate::strutil::lemma_covered_trans(
                        e.path@,
                        entries[j].path@,
                        prev.matched[m],
                    );
                    assert(covered_by_any(e.path@, prev.matched));
                }
            }
            // the found items of the prefix carry over
            assert forall|q: int| 0 <= q < st.found.len() implies exists|i: int|
                0 <= i < n && (#[trigger] st.found[q]).0 == entries[i].path@ && entry_matches(
                    entries[i],
                    patterns,
                ) && st.found[q].1 == spec_first_match(patterns, entries[i].name@)->0
                && !has_matching_proper_ancestor(entries, i, patterns) by {
                if q < prev.found.len() {
                    assert(st.found[q] == prev.found[q]);
                    let i0 = choose|i: int|
                        0 <= i < n - 1 && (#[trigger] prev.found[q]).0 == entries[i].path@
                            && entry_matches(entries[i], patterns) && prev.found[q].1
                            == spec_first_match(patterns, entries[i].name@)->0
                            && !has_matching_proper_ancestor(entries, i, patterns);
                    assert(0 <= i0 < n && st.found[q].0 == entries[i0].path@ && entry_matches(
                        entries[i0],
                        patterns,
                    ) && st.found[q].1 == spec_first_match(patterns, entries[i0].name@)->0
                        && !has_matching_proper_ancestor(entries, i0, patterns));
                } else {
                    assert(st.found[q] == (e.path@, k));
                    assert(0 <= n - 1 < n && st.found[q].0 == entries[n - 1].path@
                        && entry_matches(entries[n - 1], patterns) && st.found[q].1
                        == spec_first_match(patterns, entries[n - 1].name@)->0
                        && !has_matching_proper_ancestor(entries, n - 1, patterns));
                }
            }
            // completeness carries over, and holds of the new entry
            assert forall|i: int|
                0 <= i < n && entry_matches(entries[i], patterns)
                    && !has_matching_proper_ancestor(entries, i, patterns) implies found_paths(
                st.found,
            ).contains(#[trigger] entries[i].path@) by {
                if i < n - 1 {
                    let q = choose|q: int|
                        0 <= q < found_paths(prev.found).len() && found_paths(prev.found)[q]
                            == entries[i].path@;
                    assert(found_paths(st.found)[q] == entries[i].path@);
                } else {
                    assert(found_paths(st.found)[st.found.len() - 1] == e.path@);
                }
            }
            // every matching prefix entry stays covered
            assert forall|i: int|
                0 <= i < n && #[trigger] entry_matches(entries[i], patterns) implies
                covered_by_any(entries[i].path@, st.matched) by {
                if i < n - 1 {
                    let q = choose|q: int|
                        0 <= q < prev.matched.len() && crate::strutil::path_covered_by(
                            entries[i].path@,
                            prev.matched[q],
                        );
                    assert(st.matched[q] == prev.matched[q]);
                    assert(crate::strutil::path_covered_by(entries[i].path@, st.matched[q]));
                } else {
                    assert(st.matched[st.matched.len() - 1] == e.path@);
                    assert(crate::strutil::path_covered_by(e.path@, e.path@));
                }
            }
        }
    }
}

/// Over a depth-first walk of a tree, with hidden directories included and
/// no exclusions, the scan emits exactly the maximal matching directories:
/// an entry's path is among the found matches if and only if the entry is a
/// directory whose name matches an active kind and no matching directory
/// entry lies strictly above it; a subtree below a match is never searched
/// independently.
pub proof fn lemma_scan_finds_maximal_matches(
    entries: Seq<WalkEntry>,
    patterns: Seq<JunkKind>,
    i: int,
)
    requires
        walk_preordered(entries),
        0 <= i < entries.len(),
    ensures
        found_paths(scan_fold(entries, patterns, seq![], true).found).contains(entries[i].path@)
            <==> (entry_matches(entries[i], patterns) && !has_matching_proper_ancestor(
            entries,
            i,
            patterns,
        )),
{
    lemma_scan_invariants(entries, patterns, entries.len() as int);
    assert(entries.take(entries.len() as int) =~= entries);
    let st = scan_fold(entries, patterns, seq![], true);
    if found_paths(st.found).contains(entries[i].path@) {
        let q = choose|q: int|
            0 <= q < found_paths(st.found).len() && found_paths(st.found)[q] == entries[i].path@;
        assert(st.found[q].0 == entries[i].path@);
        let i0 = choose|i0: int|
            0 <= i0 < entries.len() && (#[trigger] st.found[q]).0 == entries[i0].path@
                && entry_matches(entries[i0], patterns) && st.found[q].1 == spec_first_match(
                patterns,
                entries[i0].name@,
            )->0 && !has_matching_proper_ancestor(entries, i0, patterns);
        assert(i0 == i);
    }
}

/// Scanning an unmodified tree twice is idempotent: the matches are a
/// function of the walked entries and the configuration alone, so equal
/// walks yield equal matches.
pub proof fn lemma_scan_idempotent(
    first: Seq<WalkEntry>,
    second: Seq<WalkEntry>,
    patterns: Seq<JunkKind>,
    excludes: Seq<Seq<char>>,
    include_hidden: bool,
)
    requires
        first == second,
    ensures
        scan_fold(first, patterns, excludes, include_hidden).found == scan_fold(
            second,
            patterns,
            excludes,
            include_hidden,
        ).found,
{
}


/// One progress report during a scan: cumulative counts over the traversal
/// so far.
#[derive(Debug, Clone, Copy)]
pub struct ScanProgress {
    /// Walk entries visited so far.
    pub paths_scanned: u64,
    /// Junk bytes found so far.
    pub bytes_found: u64,
}

/// Scans every configured root like [`scan`], reporting cumulative progress
/// to the callback as the traversal advances. The roots are traversed in
/// order with one report after each; how often the callback runs is this
/// orchestrator's choice, and callers needing rate limits must throttle on
/// their own side. The result is as for [`scan`].
pub fn scan_with_progress<F: Fn(ScanProgress)>(config: &ScanConfig, callback: F) -> (r: Result<
    ScanResult,
    DevJunkError,
>)
    requires
        forall|p: ScanProgress| call_requires(callback, (p,)),
    ensures
        match r {
            Result::Ok(res) => {
                &&& sorted_by_size_desc(res.items@)
                &&& forall|i: int|
                    0 <= i < res.items@.len() ==> scan_item_ok(#[trigger] res.items@[i], *config)
                &&& forall|i: int|
                    0 <= i < res.items@.len() ==> scan_item_rooted(
                        #[trigger] res.items@[i],
                        *config,
                    )
                &&& scan_result_from_roots(res.items@, *config)
                &&& config.roots@.len() == 0 ==> res.items@.len() == 0
            },
            Result::Err(e) => config.roots@.len() > 0 && match e {
                DevJunkError::PathNotFound(p) => exists|i: int|
                    0 <= i < config.roots@.len() && #[trigger] config.roots@[i]@ == p@,
                DevJunkError::NotADirectory(p) => exists|i: int|
                    0 <= i < config.roots@.len() && #[trigger] config.roots@[i]@ == p@,
                _ => false,
            },
        },
{
    let mut i: usize = 0;
    while i < config.roots.len()
        invariant
            i <= config.roots@.len(),
        decreases config.roots@.len() - i,
    {
        if !path_exists(config.roots[i].as_str()) {
            return Result::Err(DevJunkError::PathNotFound(config.roots[i].clone()));
        }
        if !path_is_dir(config.roots[i].as_str()) {
            return Result::Err(DevJunkError::NotADirectory(config.roots[i].clone()));
        }
        i += 1;
    }
    let mut items: Vec<ScanItem> = Vec::new();
    let ghost mut parts: Seq<Seq<ScanItem>> = Seq::empty();
    let mut paths_scanned: u64 = 0;
    let mut bytes_found: u64 = 0;
    let mut n: usize = 0;
    proof {
        assert(items@ =~= parts.flatten());
    }
    while n < config.roots.len()
        invariant
            forall|p: ScanProgress| call_requires(callback, (p,)),
            n <= config.roots@.len(),
            parts.len() == n,
            items@ == parts.flatten(),
            forall|j: int|
                0 <= j < parts.len() ==> root_scan_output(
                    #[trigger] parts[j],
                    config.roots@[j]@,
                    *config,
                ),
            forall|j: int|
                0 <= j < items@.len() ==> scan_item_ok(#[trigger] items@[j], *config)
                    && scan_item_rooted(items@[j], *config),
        decreases config.roots@.len() - n,
    {
        let entries = walk_tree(config.roots[n].as_str(), config.max_depth);
        paths_scanned = paths_scanned.saturating_add(entries.len() as u64);
        let found = scan_entries(&entries, config);
        proof {
            lemma_scan_fold_found_ok(
                entries@,
                config.include_patterns@,
                views_of(config.exclude_paths@),
                config.include_hidden,
            );
            lemma_scan_fold_found_paths(
                entries@,
                config.include_patterns@,
                views_of(config.exclude_paths@),
                config.include_hidden,
            );
            let st = scan_fold(
                entries@,
                config.include_patterns@,
                views_of(config.exclude_paths@),
                config.include_hidden,
            );
            assert forall|k: int| 0 <= k < matches_model(found@).len() implies has_prefix(
                (#[trigger] matches_model(found@)[k]).0,
                config.roots@[n as int]@,
            ) by {
                let i0 = choose|i0: int|
                    0 <= i0 < entries@.len() && (#[trigger] st.found[k]).0 == entries@[i0].path@;
                assert(has_prefix(entries@[i0].path@, config.roots@[n as int]@));
            }
            assert forall|j: int|
                0 <= j < found@.len() implies config.include_patterns@.contains(
                #[trigger] matches_model(found@)[j].1,
            ) && !covered_by_any(
                matches_model(found@)[j].0,
                views_of(config.exclude_paths@),
            ) && has_prefix(matches_model(found@)[j].0, config.roots@[n as int]@) by {
                assert(matches_model(found@)[j] == st.found[j]);
                assert(config.include_patterns@.contains(st.found[j].1));
                assert(!covered_by_any(st.found[j].0, views_of(config.exclude_paths@)));
                assert(has_prefix(st.found[j].0, config.roots@[n as int]@));
            }
        }
        let mut root_items: Vec<ScanItem> = Vec::new();
        let mut k: usize = 0;
        proof {
            assert(items_model(root_items@) =~= matches_model(found@).take(0));
        }
        while k < found.len()
            invariant
                k <= found@.len(),
                n < config.roots@.len(),
                forall|j: int|
                    0 <= j < found@.len() ==> config.include_patterns@.contains(
                        #[trigger] matches_model(found@)[j].1,
                    ) && !covered_by_any(
                        matches_model(found@)[j].0,
                        views_of(config.exclude_paths@),
                    ) && has_prefix(matches_model(found@)[j].0, config.roots@[n as int]@),
                items_model(root_items@) == matches_model(found@).take(k as int),
                forall|j: int|
                    0 <= j < root_items@.len() ==> scan_item_ok(#[trigger] root_items@[j], *config)
                        && scan_item_rooted(root_items@[j], *config) && item_stats_witnessed(
                        root_items@[j],
                    ),
            decreases found@.len() - k,
        {
            let path = found[k].path.clone();
            let kind = found[k].kind;
            let stats = calculate_dir_stats(path.as_str());
            let item = ScanItem::new(path, kind, stats.0, stats.1);
            proof {
                assert(matches_model(found@)[k as int].1 == kind);
                assert(matches_model(found@)[k as int].0 == item.path@);
                assert(has_prefix(item.path@, config.roots@[n as int]@));
                assert(scan_item_rooted(item, *config));
                assert(walk_under_root(stats.2@, item.path@));
                assert((item.size_bytes, item.file_count) == spec_entry_stats(stats.2@));
                assert(item_stats_witnessed(item));
            }
            bytes_found = bytes_found.saturating_add(item.size_bytes);
            root_items.push(item);
            proof {
                assert(matches_model(found@).take(k as int + 1) =~= matches_model(found@).take(
                    k as int,
                ).push(matches_model(found@)[k as int]));
                assert(items_model(root_items@) =~= matches_model(found@).take(k as int + 1));
            }
            k += 1;
        }
        proof {
            assert(matches_model(found@).take(found@.len() as int) =~= matches_model(found@));
            assert(root_scan_output(root_items@, config.roots@[n as int]@, *config)) by {
                assert(walk_under_root(entries@, config.roots@[n as int]@));
                assert(items_model(root_items@) == scan_fold(
                    entries@,
                    config.include_patterns@,
                    views_of(config.exclude_paths@),
                    config.include_hidden,
                ).found);
            }
        }
        let ghost part = root_items@;
        let ghost items_pre = items@;
        items.append(&mut root_items);
        proof {
            parts.lemma_flatten_push(part);
            parts = parts.push(part);
            assert(items@ =~= parts.flatten());
            assert forall|j: int| 0 <= j < items@.len() implies scan_item_ok(
                #[trigger] items@[j],
                *config,
            ) && scan_item_rooted(items@[j], *config) by {
                if j < items_pre.len() {
                    assert(items@[j] == items_pre[j]);
                } else {
                    assert(items@[j] == part[j - items_pre.len()]);
                }
            }
        }
        callback(ScanProgress { paths_scanned, bytes_found });
        n += 1;
    }
    let ghost items_before = items@;
    let mut result = ScanResult { items };
    result.sort_by_size();
    proof {
        crate::strutil::lemma_to_multiset_preserves(
            items_before,
            result.items@,
            |it: ScanItem| scan_item_ok(it, *config) && scan_item_rooted(it, *config),
        );
        if config.roots@.len() == 0 {
            items_before.to_multiset_ensures();
            result.items@.to_multiset_ensures();
        }
        assert forall|j: int| 0 <= j < result.items@.len() implies scan_item_ok(
            #[trigger] result.items@[j],
            *config,
        ) && scan_item_rooted(result.items@[j], *config) by {
            let p = |it: ScanItem| scan_item_ok(it, *config) && scan_item_rooted(it, *config);
            assert(p(result.items@[j]));
        }
        assert(scan_result_from_roots(result.items@, *config)) by {
            assert(parts.len() == config.roots@.len());
            assert(result.items@.to_multiset() == parts.flatten().to_multiset());
        }
    }
    Result::Ok(result)
}

} // verus!
