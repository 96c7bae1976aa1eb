use cascade::analyzer::CodeAnalyzer;
use cascade::graph::CodeGraph;
use cascade::graph::SourceFile;
use cascade::index::{FileIndex, IndexEntry};
use cascade::workspace::Workspace;

fn source(path: &str, content: &str) -> SourceFile {
    SourceFile { path: path.to_string(), content: content.to_string() }
}

fn entry(path: &str, content: &str) -> IndexEntry {
    IndexEntry { path: path.to_string(), size: content.len() as u64, content: content.to_string() }
}

#[test]
fn test_code_graph_new() {
    let graph = CodeGraph::new();
    assert_eq!(graph.edge_count(), 0);
}

#[test]
fn test_analyzer_new() {
    let analyzer = CodeAnalyzer::new();
    assert!(!analyzer.enabled_rules.is_empty());
}

#[test]
fn test_analyze_any_type() {
    let analyzer = CodeAnalyzer::new();
    let code = "const x: any = 5;";
    let suggestions = analyzer.analyze("test.ts", code);
    assert!(suggestions.iter().any(|s| s.message.contains("any")));
}

#[test]
fn test_file_index_new() {
    let index = FileIndex::new();
    assert_eq!(index.file_count(), 0);
}

#[test]
fn resolves_relative_import_to_existing_file() {
    // The walked paths, exactly as a directory walk yields them.
    let existing = vec!["src/a.ts".to_string(), "src/b.ts".to_string()];
    let mut graph = CodeGraph::new();
    let files = vec![
        source("src/a.ts", "import { x } from './b'\n"),
        source("src/b.ts", "export const x = 1;\n"),
    ];
    graph.analyze_workspace(&files, &existing);
    let deps = graph.get_dependencies("src/a.ts");
    assert!(deps.contains(&"src/b.ts".to_string()));
    let dependents = graph.get_dependents("src/b.ts");
    assert!(dependents.contains(&"src/a.ts".to_string()));
}

#[test]
fn package_import_passes_through_unresolved() {
    let existing: Vec<String> = Vec::new();
    let resolved = cascade::extract::resolve_import("src/a.ts", "react", &existing);
    assert_eq!(resolved, "react");
}

#[test]
fn unresolved_relative_import_keeps_joined_path() {
    let existing: Vec<String> = Vec::new();
    let resolved = cascade::extract::resolve_import("src/a.ts", "./missing", &existing);
    assert_eq!(resolved, "src/missing");
}

#[test]
fn require_call_creates_edge() {
    let existing: Vec<String> = Vec::new();
    let mut graph = CodeGraph::new();
    let files = vec![source("a.js", "const fs = require('fs');\n")];
    graph.analyze_workspace(&files, &existing);
    let deps = graph.get_dependencies("a.js");
    assert_eq!(deps, vec!["fs".to_string()]);
    assert_eq!(graph.edge_count(), 1);
}

#[test]
fn dependents_are_transpose_of_dependencies() {
    let existing: Vec<String> = Vec::new();
    let mut graph = CodeGraph::new();
    let files = vec![
        source("a.ts", "import { b } from 'b.ts'\nimport { c } from 'c.ts'\n"),
        source("b.ts", "import { c } from 'c.ts'\n"),
        source("c.ts", ""),
    ];
    graph.analyze_workspace(&files, &existing);
    for target in ["a.ts", "b.ts", "c.ts"] {
        let dependents = graph.get_dependents(target);
        for g in ["a.ts", "b.ts", "c.ts"] {
            let forward = graph.get_dependencies(g);
            assert_eq!(
                dependents.contains(&g.to_string()),
                forward.contains(&target.to_string())
            );
        }
    }
}

#[test]
fn symbols_are_discovered_per_line() {
    let existing: Vec<String> = Vec::new();
    let mut graph = CodeGraph::new();
    let files = vec![source(
        "a.ts",
        "export function hello() {}\nexport class World {}\nexport const answer = 42;\n",
    )];
    graph.analyze_workspace(&files, &existing);
    let hello = graph.find_symbol("hello");
    assert_eq!(hello.len(), 1);
    assert_eq!(hello[0].file, "a.ts");
    assert!(hello[0].exported);
    assert_eq!(graph.find_symbol("World").len(), 1);
    assert_eq!(graph.find_symbol("answer").len(), 1);
    assert_eq!(graph.find_symbol("nowhere").len(), 0);
}

#[test]
fn export_name_extraction() {
    assert_eq!(
        cascade::extract::extract_export_name("export const foo = 1;"),
        Some("foo".to_string())
    );
    assert_eq!(
        cascade::extract::extract_export_name("export function doIt() {}"),
        Some("doIt".to_string())
    );
    assert_eq!(cascade::extract::extract_export_name("export {};"), None);
}

#[test]
fn impact_scope_depth_zero_is_start_file() {
    let existing: Vec<String> = Vec::new();
    let mut graph = CodeGraph::new();
    let files = vec![
        source("a.ts", "import { b } from 'b.ts'\n"),
        source("b.ts", ""),
    ];
    graph.analyze_workspace(&files, &existing);
    let scope = graph.get_impact_scope("b.ts", 0);
    assert_eq!(scope, vec!["b.ts".to_string()]);
}

#[test]
fn impact_scope_is_monotone_in_depth() {
    let existing: Vec<String> = Vec::new();
    let mut graph = CodeGraph::new();
    let files = vec![
        source("a.ts", "import { b } from 'b.ts'\n"),
        source("b.ts", "import { c } from 'c.ts'\n"),
        source("c.ts", ""),
    ];
    graph.analyze_workspace(&files, &existing);
    for depth in 0..4usize {
        let smaller = graph.get_impact_scope("c.ts", depth);
        let larger = graph.get_impact_scope("c.ts", depth + 1);
        for f in &smaller {
            assert!(larger.contains(f));
        }
    }
    let full = graph.get_impact_scope("c.ts", 2);
    assert_eq!(full.len(), 3);
    assert!(full.contains(&"a.ts".to_string()));
    assert!(full.contains(&"b.ts".to_string()));
    assert!(full.contains(&"c.ts".to_string()));
}

#[test]
fn impact_scope_never_revisits_on_cycles() {
    let existing: Vec<String> = Vec::new();
    let mut graph = CodeGraph::new();
    let files = vec![
        source("a.ts", "import { b } from 'b.ts'\n"),
        source("b.ts", "import { a } from 'a.ts'\n"),
    ];
    graph.analyze_workspace(&files, &existing);
    let scope = graph.get_impact_scope("a.ts", 10);
    assert_eq!(scope.len(), 2);
    assert!(scope.contains(&"a.ts".to_string()));
    assert!(scope.contains(&"b.ts".to_string()));
}

#[test]
fn reindexing_unchanged_workspace_is_deterministic() {
    let existing: Vec<String> = Vec::new();
    let sources = vec![
        source("a.ts", "import { b } from 'b.ts'\n"),
        source("b.ts", "export const b = 1;\n"),
    ];
    let entries = vec![entry("a.ts", "import { b } from 'b.ts'\n"), entry("b.ts", "export const b = 1;\n")];
    let mut w = Workspace::new();
    w.index_workspace("root".to_string(), &sources, &entries, &existing);
    let first = w.workspace_stats();
    w.index_workspace("root".to_string(), &sources, &entries, &existing);
    let second = w.workspace_stats();
    assert_eq!(first.dependency_count, second.dependency_count);
    assert_eq!(first.total_files, second.total_files);
    assert_eq!(first.total_lines, second.total_lines);
}

#[test]
fn workspace_stats_counts() {
    let existing: Vec<String> = Vec::new();
    let sources = vec![source("a.ts", "import { b } from 'b.ts'\n")];
    let entries = vec![
        entry("a.ts", "line one\nline two\n"),
        entry("b.rs", "fn main() {}\n"),
    ];
    let mut w = Workspace::new();
    let info = w.index_workspace("root".to_string(), &sources, &entries, &existing);
    assert_eq!(info.path, "root");
    assert!(info.indexed);
    assert_eq!(info.file_count, 2);
    let stats = w.workspace_stats();
    assert_eq!(stats.total_files, 2);
    assert_eq!(stats.total_lines, 3);
    assert_eq!(stats.dependency_count, 1);
    let ts = stats.by_language.iter().find(|e| e.0 == "TypeScript").unwrap();
    assert_eq!(ts.1, 1);
    let rs = stats.by_language.iter().find(|e| e.0 == "Rust").unwrap();
    assert_eq!(rs.1, 1);
}

#[test]
fn unreadable_content_does_not_abort_indexing() {
    // A file whose bytes cannot be decoded contributes empty text, and the
    // remaining files of the pass are still indexed.
    let entries = vec![
        entry("good1.ts", "let a = 1;\n"),
        entry("binary.bin", ""),
        entry("good2.ts", "let b = 2;\n"),
    ];
    let mut index = FileIndex::new();
    index.index_directory(&entries);
    assert_eq!(index.file_count(), 3);
    assert_eq!(index.total_lines(), 2);
}

#[test]
fn import_specifier_is_stripped_of_quotes_and_semicolon() {
    let existing: Vec<String> = Vec::new();
    let mut graph = CodeGraph::new();
    let files = vec![source("src/a.ts", "import { x } from \"./b\";\n")];
    graph.analyze_workspace(&files, &existing);
    let deps = graph.get_dependencies("src/a.ts");
    assert_eq!(deps, vec!["src/b".to_string()]);
}

#[test]
fn probe_order_prefers_the_bare_path() {
    let existing = vec!["src/m".to_string(), "src/m.ts".to_string()];
    let resolved = cascade::extract::resolve_import("src/a.ts", "./m", &existing);
    assert_eq!(resolved, "src/m");
}

#[test]
fn suffix_probe_resolves_when_the_bare_path_is_absent() {
    let existing = vec!["src/m.tsx".to_string()];
    let resolved = cascade::extract::resolve_import("src/a.ts", "./m", &existing);
    assert_eq!(resolved, "src/m.tsx");
}

#[test]
fn repeated_current_directory_markers_collapse() {
    let existing = vec!["src/b.ts".to_string()];
    let resolved = cascade::extract::resolve_import("src/a.ts", "././b", &existing);
    assert_eq!(resolved, "src/b.ts");
}

#[test]
fn carriage_return_line_endings_are_counted_once() {
    let mut index = FileIndex::new();
    index.index_directory(&vec![entry("w.ts", "let a = 1;\r\nlet b = 2;\r\n")]);
    assert_eq!(index.total_lines(), 2);
}
