//! The orchestrator: owns the dependency graph and the file index, rebuilds
//! both from the files the caller walked and read, and exposes the query
//! surface the command layer consumes.
//!
//! Re-indexing replaces all prior state; what a pass builds is a pure
//! function of the handed-in files, so re-indexing an unchanged workspace
//! yields the same counts.

use vstd::prelude::*;

use crate::graph::{
    distinct_paths,
    spec_workspace_edge_count,
    spec_workspace_symbols,
    CodeGraph,
    SourceFileView,
    SourceFile,
};
use crate::index::{
    covers_languages,
    distinct_entry_paths,
    keys_are_languages,
    lang_count,
    spec_files_of,
    spec_total_lines,
    FileIndex,
    IndexEntry,
    IndexEntryView,
};
use crate::paths::spec_extension;
use crate::text::{chars_of, contains_seq, contains_sub, lit_chars, chars_eq_str};
use crate::paths::extension_chars;

verus! {

/// What an indexing pass reports back.
pub struct WorkspaceInfo {
    pub path: String,
    pub file_count: usize,
    pub indexed: bool,
}

/// The workspace-wide counters the stats query reports.
pub struct WorkspaceStats {
    pub total_files: usize,
    pub total_lines: usize,
    pub by_language: Vec<(String, usize)>,
    pub dependency_count: usize,
}

/// The analysis engine: the file index and the code graph, rebuilt together
/// by each indexing pass.
pub struct Workspace {
    pub file_index: FileIndex,
    pub code_graph: CodeGraph,
}

/// Whether a walked path is a source file for dependency analysis: one of
/// the recognized source extensions, outside dependency and version-control
/// directories.
pub open spec fn spec_is_source_path(p: Seq<char>) -> bool {
    let ext = spec_extension(p);
    &&& (ext == "ts"@ || ext == "tsx"@ || ext == "js"@ || ext == "jsx"@ || ext == "rs"@ || ext
        == "py"@)
    &&& !contains_seq(p, "node_modules"@)
    &&& !contains_seq(p, ".git"@)
}

/// Whether a walked path is a source file, as [`spec_is_source_path`].
pub fn is_source_path(path: &str) -> (r: bool)
    ensures
        r == spec_is_source_path(path@),
{
    let pc = chars_of(path);
    let ext = extension_chars(&pc);
    (chars_eq_str(&ext, "ts") || chars_eq_str(&ext, "tsx") || chars_eq_str(&ext, "js")
        || chars_eq_str(&ext, "jsx") || chars_eq_str(&ext, "rs") || chars_eq_str(&ext, "py"))
        && !contains_sub(&pc, &lit_chars("node_modules")) && !contains_sub(&pc, &lit_chars(".git"))
}

/// Whether a walked path belongs in the file index: any file outside
/// dependency, version-control and build-output directories.
pub open spec fn spec_is_indexable_path(p: Seq<char>) -> bool {
    &&& !contains_seq(p, "node_modules"@)
    &&& !contains_seq(p, ".git"@)
    &&& !contains_seq(p, "target"@)
}

/// Whether a walked path belongs in the file index, as
/// [`spec_is_indexable_path`].
pub fn is_indexable_path(path: &str) -> (r: bool)
    ensures
        r == spec_is_indexable_path(path@),
{
    let pc = chars_of(path);
    !contains_sub(&pc, &lit_chars("node_modules")) && !contains_sub(&pc, &lit_chars(".git"))
        && !contains_sub(&pc, &lit_chars("target"))
}

/// The engine's state is exactly what one pass over these files builds.
pub open spec fn indexed_from(
    w: Workspace,
    sources: Seq<SourceFileView>,
    entries: Seq<IndexEntryView>,
    existing: Seq<Seq<char>>,
) -> bool {
    &&& w.file_index.wf()
    &&& w.code_graph.wf()
    &&& w.file_index.spec_files() == spec_files_of(entries)
    &&& w.file_index.spec_total_lines_clamped() == (if spec_total_lines(entries)
        <= usize::MAX as nat {
        spec_total_lines(entries)
    } else {
        usize::MAX as nat
    })
    &&& w.code_graph.analyzed_from(sources, existing)
    &&& w.code_graph.spec_edge_count() == spec_workspace_edge_count(sources, existing)
    &&& w.code_graph.spec_symbols() == spec_workspace_symbols(sources)
}

impl Workspace {
    /// An engine with nothing indexed.
    pub fn new() -> (r: Self)
        ensures
            r.file_index.wf(),
            r.code_graph.wf(),
            r.file_index.spec_files().len() == 0,
            r.code_graph.spec_edge_count() == 0,
    {
        Workspace { file_index: FileIndex::new(), code_graph: CodeGraph::new() }
    }

    /// One full indexing pass: rebuild the file index from the walked
    /// entries and the dependency graph from the walked source files. The
    /// caller validates the root, walks it, and reads the files; `existing`
    /// lists the paths that exist on disk, for import resolution.
    pub fn index_workspace(
        &mut self,
        root: String,
        sources: &Vec<SourceFile>,
        entries: &Vec<IndexEntry>,
        existing: &Vec<String>,
    ) -> (r: WorkspaceInfo)
        requires
            distinct_paths(sources.deep_view()),
            distinct_entry_paths(entries.deep_view()),
        ensures
            indexed_from(*final(self), sources.deep_view(), entries.deep_view(), existing.deep_view()),
            r.path == root,
            r.file_count == final(self).file_index.spec_files().len(),
            r.indexed,
    {
        self.file_index.index_directory(entries);
        self.code_graph.analyze_workspace(sources, existing);
        let file_count = self.file_index.file_count();
        WorkspaceInfo { path: root, file_count, indexed: true }
    }

    /// The workspace-wide counters over the indexed state.
    pub fn workspace_stats(&self) -> (r: WorkspaceStats)
        ensures
            r.total_files == self.file_index.spec_files().len(),
            r.total_lines == self.file_index.spec_total_lines_clamped(),
            if self.code_graph.spec_edge_count() <= usize::MAX as nat {
                r.dependency_count == self.code_graph.spec_edge_count()
            } else {
                r.dependency_count == usize::MAX
            },
            forall|a: int, b: int|
                0 <= a < b < r.by_language@.len() ==> (#[trigger] r.by_language@[a]).0@ != (
                #[trigger] r.by_language@[b]).0@,
            forall|k: int|
                0 <= k < r.by_language@.len() ==> (#[trigger] r.by_language@[k]).1 == lang_count(
                    self.file_index.spec_files(),
                    r.by_language@[k].0@,
                ),
            covers_languages(self.file_index.spec_files(), r.by_language@),
            keys_are_languages(self.file_index.spec_files(), r.by_language@),
    {
        WorkspaceStats {
            total_files: self.file_index.file_count(),
            total_lines: self.file_index.total_lines(),
            by_language: self.file_index.files_by_language(),
            dependency_count: self.code_graph.edge_count(),
        }
    }
}

/// Re-indexing an unchanged workspace is deterministic: two engines built by
/// a pass over the same files agree on the edge count, the file count and
/// the total line count.
pub proof fn lemma_reindex_deterministic(
    a: Workspace,
    b: Workspace,
    sources: Seq<SourceFileView>,
    entries: Seq<IndexEntryView>,
    existing: Seq<Seq<char>>,
)
    requires
        indexed_from(a, sources, entries, existing),
        indexed_from(b, sources, entries, existing),
    ensures
        a.code_graph.spec_edge_count() == b.code_graph.spec_edge_count(),
        a.file_index.spec_files().len() == b.file_index.spec_files().len(),
        a.file_index.spec_total_lines_clamped() == b.file_index.spec_total_lines_clamped(),
{
}

} // verus!
