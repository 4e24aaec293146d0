//! Domain types: the junk-kind catalog, scan configuration and results,
//! clean plans and clean results.

use vstd::prelude::*;
use crate::strutil::lex_le;
use crate::strutil::str_eq;
use crate::strutil::str_lex_le;

verus! {

/// Categories of development junk directories. Each variant owns a fixed,
/// ordered list of literal directory names and a display label.
#[derive(Debug, Clone, Copy, PartialEq, Eq, Hash, Structural)]
pub enum JunkKind {
    /// Python virtual environment (`.venv`, `venv`)
    PythonVenv,
    /// Python tox directory (`.tox`)
    PythonTox,
    /// Python bytecode cache (`__pycache__`)
    PythonCache,
    /// Python mypy cache (`.mypy_cache`)
    MypyCache,
    /// Python pytest cache (`.pytest_cache`)
    PytestCache,
    /// Node.js modules (`node_modules`)
    NodeModules,
    /// Rust target directory (`target`)
    RustTarget,
    /// Generic build directory (`build`)
    BuildDir,
    /// Generic dist directory (`dist`)
    DistDir,
    /// Generic output directory (`out`)
    OutDir,
    /// Vendored Go dependencies (`vendor`)
    GoVendor,
    /// Next.js build directory (`.next`)
    NextDir,
    /// Nuxt.js build directory (`.nuxt`)
    NuxtDir,
}

/// The catalog, in its stable order.
pub open spec fn all_kinds() -> Seq<JunkKind> {
    seq![
        JunkKind::PythonVenv,
        JunkKind::PythonTox,
        JunkKind::PythonCache,
        JunkKind::MypyCache,
        JunkKind::PytestCache,
        JunkKind::NodeModules,
        JunkKind::RustTarget,
        JunkKind::BuildDir,
        JunkKind::DistDir,
        JunkKind::OutDir,
        JunkKind::GoVendor,
        JunkKind::NextDir,
        JunkKind::NuxtDir,
    ]
}

/// Whether a directory name matches one of the kind's literal patterns.
pub open spec fn kind_matches(k: JunkKind, name: Seq<char>) -> bool {
    match k {
        JunkKind::PythonVenv => name == ".venv"@ || name == "venv"@,
        JunkKind::PythonTox => name == ".tox"@,
        JunkKind::PythonCache => name == "__pycache__"@,
        JunkKind::MypyCache => name == ".mypy_cache"@,
        JunkKind::PytestCache => name == ".pytest_cache"@,
        JunkKind::NodeModules => name == "node_modules"@,
        JunkKind::RustTarget => name == "target"@,
        JunkKind::BuildDir => name == "build"@,
        JunkKind::DistDir => name == "dist"@,
        JunkKind::OutDir => name == "out"@,
        JunkKind::GoVendor => name == "vendor"@,
        JunkKind::NextDir => name == ".next"@,
        JunkKind::NuxtDir => name == ".nuxt"@,
    }
}

/// The kind's pattern list, in order.
pub open spec fn kind_patterns(k: JunkKind) -> Seq<Seq<char>> {
    match k {
        JunkKind::PythonVenv => seq![".venv"@, "venv"@],
        JunkKind::PythonTox => seq![".tox"@],
        JunkKind::PythonCache => seq!["__pycache__"@],
        JunkKind::MypyCache => seq![".mypy_cache"@],
        JunkKind::PytestCache => seq![".pytest_cache"@],
        JunkKind::NodeModules => seq!["node_modules"@],
        JunkKind::RustTarget => seq!["target"@],
        JunkKind::BuildDir => seq!["build"@],
        JunkKind::DistDir => seq!["dist"@],
        JunkKind::OutDir => seq!["out"@],
        JunkKind::GoVendor => seq!["vendor"@],
        JunkKind::NextDir => seq![".next"@],
        JunkKind::NuxtDir => seq![".nuxt"@],
    }
}

/// The kind's display label.
pub open spec fn spec_display_name(k: JunkKind) -> Seq<char> {
    match k {
        JunkKind::PythonVenv => "Python Venv"@,
        JunkKind::PythonTox => "Python Tox"@,
        JunkKind::PythonCache => "Python Cache"@,
        JunkKind::MypyCache => "Mypy Cache"@,
        JunkKind::PytestCache => "Pytest Cache"@,
        JunkKind::NodeModules => "Node Modules"@,
        JunkKind::RustTarget => "Rust Target"@,
        JunkKind::BuildDir => "Build Dir"@,
        JunkKind::DistDir => "Dist Dir"@,
        JunkKind::OutDir => "Out Dir"@,
        JunkKind::GoVendor => "Go Vendor"@,
        JunkKind::NextDir => "Next.js"@,
        JunkKind::NuxtDir => "Nuxt.js"@,
    }
}

/// The kind's stable string identifier.
pub open spec fn spec_kind_id(k: JunkKind) -> Seq<char> {
    match k {
        JunkKind::PythonVenv => "pythonvenv"@,
        JunkKind::PythonTox => "pythontox"@,
        JunkKind::PythonCache => "pythoncache"@,
        JunkKind::MypyCache => "mypycache"@,
        JunkKind::PytestCache => "pytestcache"@,
        JunkKind::NodeModules => "nodemodules"@,
        JunkKind::RustTarget => "rusttarget"@,
        JunkKind::BuildDir => "builddir"@,
        JunkKind::DistDir => "distdir"@,
        JunkKind::OutDir => "outdir"@,
        JunkKind::GoVendor => "govendor"@,
        JunkKind::NextDir => "nextdir"@,
        JunkKind::NuxtDir => "nuxtdir"@,
    }
}

/// The first kind among `ks` whose patterns match `name`.
pub open spec fn spec_first_match(ks: Seq<JunkKind>, name: Seq<char>) -> Option<JunkKind>
    decreases ks.len(),
{
    if ks.len() == 0 {
        None
    } else if kind_matches(ks[0], name) {
        Some(ks[0])
    } else {
        spec_first_match(ks.drop_first(), name)
    }
}

impl JunkKind {
    /// All known junk kinds, in the catalog's stable order.
    pub fn all() -> (r: Vec<JunkKind>)
        ensures
            r@ == all_kinds(),
    {
        let r = vec![
            JunkKind::PythonVenv,
            JunkKind::PythonTox,
            JunkKind::PythonCache,
            JunkKind::MypyCache,
            JunkKind::PytestCache,
            JunkKind::NodeModules,
            JunkKind::RustTarget,
            JunkKind::BuildDir,
            JunkKind::DistDir,
            JunkKind::OutDir,
            JunkKind::GoVendor,
            JunkKind::NextDir,
            JunkKind::NuxtDir,
        ];
        proof {
            assert(r@ =~= all_kinds());
        }
        r
    }

    /// The directory-name patterns of this kind, in order.
    pub fn patterns(&self) -> (r: Vec<&'static str>)
        ensures
            r@.map_values(|s: &str| s@) == kind_patterns(*self),
    {
        let r: Vec<&'static str> = match self {
            JunkKind::PythonVenv => vec![".venv", "venv"],
            JunkKind::PythonTox => vec![".tox"],
            JunkKind::PythonCache => vec!["__pycache__"],
            JunkKind::MypyCache => vec![".mypy_cache"],
            JunkKind::PytestCache => vec![".pytest_cache"],
            JunkKind::NodeModules => vec!["node_modules"],
            JunkKind::RustTarget => vec!["target"],
            JunkKind::BuildDir => vec!["build"],
            JunkKind::DistDir => vec!["dist"],
            JunkKind::OutDir => vec!["out"],
            JunkKind::GoVendor => vec!["vendor"],
            JunkKind::NextDir => vec![".next"],
            JunkKind::NuxtDir => vec![".nuxt"],
        };
        proof {
            assert(r@.map_values(|s: &str| s@) =~= kind_patterns(*self));
        }
        r
    }

    /// Whether a directory name matches this kind.
    pub fn matches_name(&self, name: &str) -> (r: bool)
        ensures
            r == kind_matches(*self, name@),
    {
        match self {
            JunkKind::PythonVenv => str_eq(name, ".venv") || str_eq(name, "venv"),
            JunkKind::PythonTox => str_eq(name, ".tox"),
            JunkKind::PythonCache => str_eq(name, "__pycache__"),
            JunkKind::MypyCache => str_eq(name, ".mypy_cache"),
            JunkKind::PytestCache => str_eq(name, ".pytest_cache"),
            JunkKind::NodeModules => str_eq(name, "node_modules"),
            JunkKind::RustTarget => str_eq(name, "target"),
            JunkKind::BuildDir => str_eq(name, "build"),
            JunkKind::DistDir => str_eq(name, "dist"),
            JunkKind::OutDir => str_eq(name, "out"),
            JunkKind::GoVendor => str_eq(name, "vendor"),
            JunkKind::NextDir => str_eq(name, ".next"),
            JunkKind::NuxtDir => str_eq(name, ".nuxt"),
        }
    }

    /// The first kind of the catalog whose patterns match the name.
    pub fn from_name(name: &str) -> (r: Option<JunkKind>)
        ensures
            r == spec_first_match(all_kinds(), name@),
    {
        let ks = JunkKind::all();
        let mut i: usize = 0;
        proof {
            assert(all_kinds().skip(0) =~= all_kinds());
        }
        while i < ks.len()
            invariant
                ks@ == all_kinds(),
                i <= ks@.len(),
                spec_first_match(all_kinds(), name@) == spec_first_match(
                    all_kinds().skip(i as int),
                    name@,
                ),
            decreases ks@.len() - i,
        {
            if ks[i].matches_name(name) {
                proof {
                    assert(all_kinds().skip(i as int)[0] == ks@[i as int]);
                }
                return Some(ks[i]);
            }
            proof {
                assert(all_kinds().skip(i as int).drop_first() =~= all_kinds().skip(i as int + 1));
                assert(all_kinds().skip(i as int)[0] == ks@[i as int]);
            }
            i += 1;
        }
        proof {
            assert(all_kinds().skip(i as int).len() == 0);
        }
        None
    }

    /// The human-readable display name of this kind.
    pub fn display_name(&self) -> (r: &'static str)
        ensures
            r@ == spec_display_name(*self),
    {
        match self {
            JunkKind::PythonVenv => "Python Venv",
            JunkKind::PythonTox => "Python Tox",
            JunkKind::PythonCache => "Python Cache",
            JunkKind::MypyCache => "Mypy Cache",
            JunkKind::PytestCache => "Pytest Cache",
            JunkKind::NodeModules => "Node Modules",
            JunkKind::RustTarget => "Rust Target",
            JunkKind::BuildDir => "Build Dir",
            JunkKind::DistDir => "Dist Dir",
            JunkKind::OutDir => "Out Dir",
            JunkKind::GoVendor => "Go Vendor",
            JunkKind::NextDir => "Next.js",
            JunkKind::NuxtDir => "Nuxt.js",
        }
    }

    /// The stable lower-case identifier of this kind.
    pub fn stable_id(&self) -> (r: &'static str)
        ensures
            r@ == spec_kind_id(*self),
    {
        match self {
            JunkKind::PythonVenv => "pythonvenv",
            JunkKind::PythonTox => "pythontox",
            JunkKind::PythonCache => "pythoncache",
            JunkKind::MypyCache => "mypycache",
            JunkKind::PytestCache => "pytestcache",
            JunkKind::NodeModules => "nodemodules",
            JunkKind::RustTarget => "rusttarget",
            JunkKind::BuildDir => "builddir",
            JunkKind::DistDir => "distdir",
            JunkKind::OutDir => "outdir",
            JunkKind::GoVendor => "govendor",
            JunkKind::NextDir => "nextdir",
            JunkKind::NuxtDir => "nuxtdir",
        }
    }
}

} // verus!

use vstd::seq_lib::group_to_multiset_ensures;

verus! {

/// Configuration of one scan invocation.
#[derive(Debug, Clone)]
pub struct ScanConfig {
    /// Root directories to scan.
    pub roots: Vec<String>,
    /// Junk kinds to search for.
    pub include_patterns: Vec<JunkKind>,
    /// Absolute paths whose subtrees are skipped.
    pub exclude_paths: Vec<String>,
    /// Maximum traversal depth below a root, unlimited when absent.
    pub max_depth: Option<usize>,
    /// Whether hidden directories are descended into.
    pub include_hidden: bool,
}

impl Default for ScanConfig {
    /// An empty configuration searching for every known kind.
    fn default() -> (r: Self)
        ensures
            r.roots@.len() == 0,
            r.include_patterns@ == all_kinds(),
            r.exclude_paths@.len() == 0,
            r.max_depth is None,
            !r.include_hidden,
    {
        ScanConfig {
            roots: Vec::new(),
            include_patterns: JunkKind::all(),
            exclude_paths: Vec::new(),
            max_depth: None,
            include_hidden: false,
        }
    }
}

impl ScanConfig {
    /// A configuration for the given roots, with every other field at its
    /// default.
    pub fn new(roots: Vec<String>) -> (r: Self)
        ensures
            r.roots@ == roots@,
            r.include_patterns@ == all_kinds(),
            r.exclude_paths@.len() == 0,
            r.max_depth is None,
            !r.include_hidden,
    {
        ScanConfig {
            roots,
            include_patterns: JunkKind::all(),
            exclude_paths: Vec::new(),
            max_depth: None,
            include_hidden: false,
        }
    }

    /// The same configuration with the given depth limit.
    pub fn with_max_depth(self, depth: usize) -> (r: Self)
        ensures
            r == (ScanConfig { max_depth: Some(depth), ..self }),
    {
        ScanConfig { max_depth: Some(depth), ..self }
    }

    /// The same configuration with hidden-directory descent switched.
    pub fn with_hidden(self, enabled: bool) -> (r: Self)
        ensures
            r == (ScanConfig { include_hidden: enabled, ..self }),
    {
        ScanConfig { include_hidden: enabled, ..self }
    }

    /// The same configuration searching only for the given kinds.
    pub fn with_patterns(self, patterns: Vec<JunkKind>) -> (r: Self)
        ensures
            r == (ScanConfig { include_patterns: patterns, ..self }),
    {
        ScanConfig { include_patterns: patterns, ..self }
    }
}

/// One matched junk directory.
#[derive(Debug, Clone)]
pub struct ScanItem {
    /// Absolute path of the directory.
    pub path: String,
    /// The junk kind its name matched.
    pub kind: JunkKind,
    /// Aggregate size in bytes of the files beneath it.
    pub size_bytes: u64,
    /// Aggregate count of the files beneath it.
    pub file_count: u64,
}

impl ScanItem {
    /// An item with the given fields.
    pub fn new(path: String, kind: JunkKind, size_bytes: u64, file_count: u64) -> (r: Self)
        ensures
            r.path@ == path@,
            r.kind == kind,
            r.size_bytes == size_bytes,
            r.file_count == file_count,
    {
        ScanItem { path, kind, size_bytes, file_count }
    }
}

/// Saturating addition on byte and file counters.
pub open spec fn sat_add64(a: u64, b: u64) -> u64 {
    if a + b <= u64::MAX {
        (a + b) as u64
    } else {
        u64::MAX
    }
}

/// The saturating sum of the sizes of a sequence of items.
pub open spec fn sum_sizes(items: Seq<ScanItem>) -> u64
    decreases items.len(),
{
    if items.len() == 0 {
        0u64
    } else {
        sat_add64(sum_sizes(items.drop_last()), items.last().size_bytes)
    }
}

/// The saturating sum of the file counts of a sequence of items.
pub open spec fn sum_file_counts(items: Seq<ScanItem>) -> u64
    decreases items.len(),
{
    if items.len() == 0 {
        0u64
    } else {
        sat_add64(sum_file_counts(items.drop_last()), items.last().file_count)
    }
}

/// Items ordered by size, largest first.
pub open spec fn sorted_by_size_desc(s: Seq<ScanItem>) -> bool {
    forall|i: int, j: int| 0 <= i <= j < s.len() ==> s[i].size_bytes >= s[j].size_bytes
}

/// Items ordered by path, lexicographically ascending.
pub open spec fn sorted_by_path_asc(s: Seq<ScanItem>) -> bool {
    forall|i: int, j: int| 0 <= i <= j < s.len() ==> lex_le(s[i].path@, s[j].path@)
}

/// The ordered result of a scan.
#[derive(Debug, Clone)]
pub struct ScanResult {
    /// All discovered junk items.
    pub items: Vec<ScanItem>,
}

impl ScanResult {
    /// An empty result.
    pub fn new() -> (r: Self)
        ensures
            r.items@.len() == 0,
    {
        ScanResult { items: Vec::new() }
    }

    /// The saturating sum of all item sizes, in bytes.
    pub fn total_size_bytes(&self) -> (r: u64)
        ensures
            r == sum_sizes(self.items@),
    {
        let mut total: u64 = 0;
        let mut i: usize = 0;
        proof {
            assert(self.items@.take(0) =~= Seq::<ScanItem>::empty());
        }
        while i < self.items.len()
            invariant
                i <= self.items@.len(),
                total == sum_sizes(self.items@.take(i as int)),
            decreases self.items@.len() - i,
        {
            proof {
                assert(self.items@.take(i as int + 1).drop_last() =~= self.items@.take(i as int));
                assert(self.items@.take(i as int + 1).last() == self.items@[i as int]);
            }
            total = total.saturating_add(self.items[i].size_bytes);
            i += 1;
        }
        proof {
            assert(self.items@.take(i as int) =~= self.items@);
        }
        total
    }

    /// The saturating sum of all item file counts.
    pub fn total_file_count(&self) -> (r: u64)
        ensures
            r == sum_file_counts(self.items@),
    {
        let mut total: u64 = 0;
        let mut i: usize = 0;
        proof {
            assert(self.items@.take(0) =~= Seq::<ScanItem>::empty());
        }
        while i < self.items.len()
            invariant
                i <= self.items@.len(),
                total == sum_file_counts(self.items@.take(i as int)),
            decreases self.items@.len() - i,
        {
            proof {
                assert(self.items@.take(i as int + 1).drop_last() =~= self.items@.take(i as int));
                assert(self.items@.take(i as int + 1).last() == self.items@[i as int]);
            }
            total = total.saturating_add(self.items[i].file_count);
            i += 1;
        }
        proof {
            assert(self.items@.take(i as int) =~= self.items@);
        }
        total
    }

    /// The number of items.
    pub fn item_count(&self) -> (r: usize)
        ensures
            r == self.items@.len(),
    {
        self.items.len()
    }

    /// Reorders the items by size, largest first. The items themselves are
    /// kept: the new sequence carries the same multiset.
    pub fn sort_by_size(&mut self)
        ensures
            final(self).items@.to_multiset() == old(self).items@.to_multiset(),
            sorted_by_size_desc(final(self).items@),
    {
        broadcast use group_to_multiset_ensures;

        let mut out: Vec<ScanItem> = Vec::new();
        proof {
            assert(out@.to_multiset().add(self.items@.to_multiset()) =~= self.items@.to_multiset());
        }
        while self.items.len() > 0
            invariant
                out@.to_multiset().add(self.items@.to_multiset()) == old(
                    self,
                ).items@.to_multiset(),
                sorted_by_size_desc(out@),
                forall|i: int, j: int|
                    0 <= i < out@.len() && 0 <= j < self.items@.len() ==> out@[i].size_bytes
                        >= self.items@[j].size_bytes,
            decreases self.items@.len(),
        {
            let mut best: usize = 0;
            let mut k: usize = 1;
            while k < self.items.len()
                invariant
                    self.items@.len() > 0,
                    best < k,
                    k <= self.items@.len(),
                    forall|j: int|
                        0 <= j < k ==> self.items@[best as int].size_bytes
                            >= self.items@[j].size_bytes,
                decreases self.items@.len() - k,
            {
                if self.items[k].size_bytes > self.items[best].size_bytes {
                    best = k;
                }
                k += 1;
            }
            let ghost prev_items = self.items@;
            let ghost prev_out = out@;
            let it = self.items.remove(best);
            out.push(it);
            proof {
                prev_out.to_multiset_ensures();
                prev_items.to_multiset_ensures();
                assert(out@ == prev_out.push(it));
                assert(self.items@ == prev_items.remove(best as int));
                assert(it == prev_items[best as int]);
                assert(out@.to_multiset() =~= prev_out.to_multiset().insert(it));
                assert(self.items@.to_multiset() =~= prev_items.to_multiset().remove(it));
                assert(prev_items.to_multiset().count(it) > 0);
                assert(out@.to_multiset().add(self.items@.to_multiset()) =~= prev_out.to_multiset().add(
                    prev_items.to_multiset(),
                ));
                assert(forall|j: int|
                    0 <= j < self.items@.len() ==> it.size_bytes >= self.items@[j].size_bytes);
            }
        }
        self.items = out;
        proof {
            assert(self.items@.to_multiset().add(Seq::<ScanItem>::empty().to_multiset())
                =~= self.items@.to_multiset());
        }
    }

    /// Reorders the items by path, lexicographically ascending, keeping the
    /// same multiset of items.
    pub fn sort_by_path(&mut self)
        ensures
            final(self).items@.to_multiset() == old(self).items@.to_multiset(),
            sorted_by_path_asc(final(self).items@),
    {
        broadcast use group_to_multiset_ensures;

        let mut out: Vec<ScanItem> = Vec::new();
        proof {
            assert(out@.to_multiset().add(self.items@.to_multiset()) =~= self.items@.to_multiset());
        }
        while self.items.len() > 0
            invariant
                out@.to_multiset().add(self.items@.to_multiset()) == old(
                    self,
                ).items@.to_multiset(),
                sorted_by_path_asc(out@),
                forall|i: int, j: int|
                    0 <= i < out@.len() && 0 <= j < self.items@.len() ==> lex_le(
                        out@[i].path@,
                        self.items@[j].path@,
                    ),
            decreases self.items@.len(),
        {
            let mut best: usize = 0;
            let mut k: usize = 1;
            proof {
                crate::strutil::lemma_lex_refl(self.items@[0].path@);
            }
            while k < self.items.len()
                invariant
                    self.items@.len() > 0,
                    best < k,
                    k <= self.items@.len(),
                    forall|j: int|
                        0 <= j < k ==> lex_le(
                            self.items@[best as int].path@,
                            self.items@[j].path@,
                        ),
                decreases self.items@.len() - k,
            {
                if !str_lex_le(self.items[best].path.as_str(), self.items[k].path.as_str()) {
                    proof {
                        crate::strutil::lemma_lex_total(
                            self.items@[best as int].path@,
                            self.items@[k as int].path@,
                        );
                        assert forall|j: int| 0 <= j < k + 1 implies lex_le(
                            self.items@[k as int].path@,
                            self.items@[j].path@,
                        ) by {
                            if j < k {
                                crate::strutil::lemma_lex_trans(
                                    self.items@[k as int].path@,
                                    self.items@[best as int].path@,
                                    self.items@[j].path@,
                                );
                            } else {
                                crate::strutil::lemma_lex_refl(self.items@[k as int].path@);
                            }
                        }
                    }
                    best = k;
                }
                k += 1;
            }
            let ghost prev_items = self.items@;
            let ghost prev_out = out@;
            let it = self.items.remove(best);
            out.push(it);
            proof {
                prev_out.to_multiset_ensures();
                prev_items.to_multiset_ensures();
                assert(out@ == prev_out.push(it));
                assert(self.items@ == prev_items.remove(best as int));
                assert(it == prev_items[best as int]);
                assert(out@.to_multiset() =~= prev_out.to_multiset().insert(it));
                assert(self.items@.to_multiset() =~= prev_items.to_multiset().remove(it));
                assert(prev_items.to_multiset().count(it) > 0);
                assert(out@.to_multiset().add(self.items@.to_multiset()) =~= prev_out.to_multiset().add(
                    prev_items.to_multiset(),
                ));
                assert(forall|j: int|
                    0 <= j < self.items@.len() ==> lex_le(it.path@, self.items@[j].path@));
            }
        }
        self.items = out;
        proof {
            assert(self.items@.to_multiset().add(Seq::<ScanItem>::empty().to_multiset())
                =~= self.items@.to_multiset());
        }
    }
}

/// The paths selected for deletion, with the dry-run switch.
#[derive(Debug, Clone)]
pub struct CleanPlan {
    /// Paths to delete, in scan-result order.
    pub paths: Vec<String>,
    /// When set, execution only simulates deletion.
    pub dry_run: bool,
}

impl CleanPlan {
    /// A plan over the given paths.
    pub fn new(paths: Vec<String>, dry_run: bool) -> (r: Self)
        ensures
            r.paths@ == paths@,
            r.dry_run == dry_run,
    {
        CleanPlan { paths, dry_run }
    }

    /// The number of paths in the plan.
    pub fn count(&self) -> (r: usize)
        ensures
            r == self.paths@.len(),
    {
        self.paths.len()
    }
}

/// The accumulated outcome of executing (or simulating) a clean plan.
#[derive(Debug, Clone)]
pub struct CleanResult {
    /// Paths deleted, or recorded as deleted in a dry run.
    pub deleted: Vec<String>,
    /// Paths whose deletion failed, each with its error message.
    pub failed: Vec<(String, String)>,
    /// Saturating total of bytes freed by the deleted paths.
    pub bytes_freed: u64,
    /// Whether the execution was a dry run.
    pub was_dry_run: bool,
}

impl CleanResult {
    /// An empty result for a run with the given dry-run switch.
    pub fn new(dry_run: bool) -> (r: Self)
        ensures
            r.deleted@.len() == 0,
            r.failed@.len() == 0,
            r.bytes_freed == 0,
            r.was_dry_run == dry_run,
    {
        CleanResult { deleted: Vec::new(), failed: Vec::new(), bytes_freed: 0, was_dry_run: dry_run }
    }

    /// The number of deleted paths.
    pub fn deleted_count(&self) -> (r: usize)
        ensures
            r == self.deleted@.len(),
    {
        self.deleted.len()
    }

    /// The number of failed paths.
    pub fn failed_count(&self) -> (r: usize)
        ensures
            r == self.failed@.len(),
    {
        self.failed.len()
    }

    /// Whether every attempted deletion succeeded.
    pub fn is_success(&self) -> (r: bool)
        ensures
            r == (self.failed@.len() == 0),
    {
        self.failed.is_empty()
    }
}

} // verus!

verus! {

/// What str::to_lowercase returns: a function of the characters alone.
pub uninterp spec fn lower_of(s: Seq<char>) -> Seq<char>;

/// Relies on str::to_lowercase: the Unicode lowercase mapping of the string,
/// a function of its characters alone.
#[verifier::external_body]
pub(crate) fn to_lowercase(s: &str) -> (r: String)
    ensures
        r@ == lower_of(s@),
{
    s.to_lowercase()
}

/// Whether a lowered filter string occurs in the kind's identifier.
pub open spec fn spec_filter_hits(k: JunkKind, lowered_filters: Seq<Seq<char>>) -> bool {
    exists|i: int|
        0 <= i < lowered_filters.len() && crate::strutil::spec_contains_sub(
            spec_kind_id(k),
            #[trigger] lowered_filters[i],
        )
}

/// The kinds of the catalog hit by some lowered filter, in catalog order.
pub open spec fn spec_selected_kinds(ks: Seq<JunkKind>, lowered_filters: Seq<Seq<char>>) -> Seq<
    JunkKind,
>
    decreases ks.len(),
{
    if ks.len() == 0 {
        seq![]
    } else {
        let prev = spec_selected_kinds(ks.drop_last(), lowered_filters);
        if spec_filter_hits(ks.last(), lowered_filters) {
            prev.push(ks.last())
        } else {
            prev
        }
    }
}

/// The lowered views of the filter strings.
pub open spec fn lowered_views(filters: Seq<String>) -> Seq<Seq<char>> {
    filters.map_values(|s: String| lower_of(s@))
}

/// Whether some lowered filter hits the kind.
fn kind_hit_by_filters(kind: JunkKind, kind_filters: &Vec<String>) -> (r: bool)
    ensures
        r == spec_filter_hits(kind, lowered_views(kind_filters@)),
{
    let mut i: usize = 0;
    while i < kind_filters.len()
        invariant
            i <= kind_filters@.len(),
            forall|j: int|
                0 <= j < i ==> !crate::strutil::spec_contains_sub(
                    spec_kind_id(kind),
                    #[trigger] lowered_views(kind_filters@)[j],
                ),
        decreases kind_filters@.len() - i,
    {
        let lowered = to_lowercase(kind_filters[i].as_str());
        if crate::strutil::str_contains_sub(kind.stable_id(), lowered.as_str()) {
            proof {
                assert(lowered_views(kind_filters@)[i as int] == lower_of(kind_filters@[
                    i as int]@));
            }
            return true;
        }
        i += 1;
    }
    false
}

/// Builds the configuration the command line asks for: the given roots,
/// depth limit and hidden-directory switch; when kind filters are given and
/// at least one lower-cased filter occurs in a kind's identifier, only the
/// kinds so hit are searched for, otherwise all kinds are.
pub fn build_scan_config(
    paths: Vec<String>,
    max_depth: Option<usize>,
    include_hidden: bool,
    kind_filters: &Vec<String>,
) -> (r: ScanConfig)
    ensures
        r.roots@ == paths@,
        r.max_depth == max_depth,
        r.include_hidden == include_hidden,
        r.exclude_paths@.len() == 0,
        r.include_patterns@ == ({
            let selected = spec_selected_kinds(all_kinds(), lowered_views(kind_filters@));
            if kind_filters@.len() > 0 && selected.len() > 0 {
                selected
            } else {
                all_kinds()
            }
        }),
{
    let mut config = ScanConfig::new(paths);
    config = config.with_hidden(include_hidden);
    if let Some(depth) = max_depth {
        config = config.with_max_depth(depth);
    }
    if kind_filters.len() > 0 {
        let ks = JunkKind::all();
        let mut selected: Vec<JunkKind> = Vec::new();
        let mut i: usize = 0;
        proof {
            assert(all_kinds().take(0) =~= Seq::<JunkKind>::empty());
            assert(selected@ =~= spec_selected_kinds(
                all_kinds().take(0),
                lowered_views(kind_filters@),
            ));
        }
        while i < ks.len()
            invariant
                ks@ == all_kinds(),
                i <= ks@.len(),
                selected@ == spec_selected_kinds(
                    all_kinds().take(i as int),
                    lowered_views(kind_filters@),
                ),
            decreases ks@.len() - i,
        {
            proof {
                assert(all_kinds().take(i as int + 1).drop_last() =~= all_kinds().take(i as int));
                assert(all_kinds().take(i as int + 1).last() == all_kinds()[i as int]);
            }
            if kind_hit_by_filters(ks[i], kind_filters) {
                selected.push(ks[i]);
            }
            i += 1;
        }
        proof {
            assert(all_kinds().take(i as int) =~= all_kinds());
        }
        if selected.len() > 0 {
            config = config.with_patterns(selected);
        }
    }
    config
}

} // verus!
