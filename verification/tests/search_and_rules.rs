use cascade::analyzer::CodeAnalyzer;
use cascade::index::{detect_language, extract_words, FileIndex, IndexEntry};

fn entry(path: &str, content: &str) -> IndexEntry {
    IndexEntry { path: path.to_string(), size: content.len() as u64, content: content.to_string() }
}

#[test]
fn empty_query_returns_nothing() {
    let mut index = FileIndex::new();
    index.index_directory(&vec![entry("src/foo.ts", "let a = 1;\n")]);
    assert_eq!(index.search("").len(), 0);
}

#[test]
fn unmatched_query_returns_nothing() {
    let mut index = FileIndex::new();
    index.index_directory(&vec![entry("src/foo.ts", "let a = 1;\n")]);
    assert_eq!(index.search("zzzz").len(), 0);
}

#[test]
fn search_caps_results_and_scores_never_increase() {
    let mut entries = Vec::new();
    for i in 0..60 {
        entries.push(entry(&format!("src/file{}.ts", i), "let a = 1;\n"));
    }
    let mut index = FileIndex::new();
    index.index_directory(&entries);
    let results = index.search("file");
    assert_eq!(results.len(), 50);
    for w in results.windows(2) {
        assert!(w[0].score >= w[1].score);
    }
}

#[test]
fn search_ranks_exact_name_above_substring() {
    let mut index = FileIndex::new();
    index.index_directory(&vec![
        entry("src/barfoo.ts", "let a = 1;\n"),
        entry("src/foo.ts", "let b = 2;\n"),
    ]);
    let results = index.search("foo.ts");
    assert_eq!(results.len(), 2);
    assert_eq!(results[0].name, "foo.ts");
    assert_eq!(results[0].score, 100);
    assert_eq!(results[1].name, "barfoo.ts");
    assert_eq!(results[1].score, 50);
}

#[test]
fn search_is_case_insensitive() {
    let mut index = FileIndex::new();
    index.index_directory(&vec![entry("src/Widget.ts", "let a = 1;\n")]);
    let results = index.search("WIDGET.TS");
    assert_eq!(results.len(), 1);
    assert_eq!(results[0].score, 100);
}

#[test]
fn path_match_scores_twenty_five() {
    let mut index = FileIndex::new();
    index.index_directory(&vec![entry("vendor/widgets/main.rs", "fn main() {}\n")]);
    let results = index.search("widgets");
    assert_eq!(results.len(), 1);
    assert_eq!(results[0].score, 25);
}

#[test]
fn word_bonus_accumulates() {
    let mut index = FileIndex::new();
    index.index_directory(&vec![entry("src/alpha_beta.ts", "let a = 1;\n")]);
    // Neither word list matches the name or path as one substring, but each
    // query word occurs in both the name and the path.
    let results = index.search("beta alpha");
    assert_eq!(results.len(), 1);
    assert_eq!(results[0].score, 30);
}

#[test]
fn has_changed_reports_new_and_unchanged_paths() {
    let mut index = FileIndex::new();
    index.index_directory(&vec![entry("src/empty.ts", "")]);
    // SHA-256 of the empty byte string.
    let empty_hash = "e3b0c44298fc1c149afbf4c8996fb92427ae41e4649b934ca495991b7852b855";
    assert!(!index.has_changed("src/empty.ts", empty_hash));
    assert!(index.has_changed("src/empty.ts", "0000"));
    assert!(index.has_changed("src/never-indexed.ts", empty_hash));
}

#[test]
fn content_hash_is_the_sha256_hex_digest() {
    let mut index = FileIndex::new();
    index.index_directory(&vec![entry("h.txt", "hello")]);
    let hello_hash = "2cf24dba5fb0a30e26e83b2ac5b9e29e1b161e5c1fa7425e73043362938b9824";
    assert!(!index.has_changed("h.txt", hello_hash));
}

#[test]
fn languages_are_detected_from_extensions() {
    assert_eq!(detect_language("ts"), "TypeScript");
    assert_eq!(detect_language("rs"), "Rust");
    assert_eq!(detect_language("py"), "Python");
    assert_eq!(detect_language("yml"), "YAML");
    assert_eq!(detect_language("weird"), "Other");
}

#[test]
fn file_name_words_are_tokenized() {
    let words = extract_words("my_file-name.ts");
    assert_eq!(words, vec!["my_file".to_string(), "name".to_string(), "ts".to_string()]);
}

#[test]
fn short_tokens_are_dropped() {
    let words = extract_words("a-bc");
    assert_eq!(words, vec!["bc".to_string()]);
}

#[test]
fn rust_rules_flag_unwrap_and_unsafe() {
    let analyzer = CodeAnalyzer::new();
    let code = "let x = y.unwrap();\nunsafe { z() }\n";
    let suggestions = analyzer.analyze("lib.rs", code);
    assert_eq!(suggestions.len(), 2);
    assert_eq!(suggestions[0].kind, "quality");
    assert_eq!(suggestions[0].line, 1);
    assert_eq!(suggestions[1].kind, "security");
    assert_eq!(suggestions[1].line, 2);
}

#[test]
fn python_rules_flag_bare_except_and_eval() {
    let analyzer = CodeAnalyzer::new();
    let code = "try:\n    pass\nexcept:\n    eval('x')\n";
    let suggestions = analyzer.analyze("script.py", code);
    assert_eq!(suggestions.len(), 2);
    assert_eq!(suggestions[0].severity, "warning");
    assert_eq!(suggestions[0].fix, Some("except Exception as e:".to_string()));
    assert_eq!(suggestions[1].severity, "error");
    assert_eq!(suggestions[1].line, 4);
}

#[test]
fn typescript_rules_report_columns() {
    let analyzer = CodeAnalyzer::new();
    let code = "if (a == b) { eval('x'); }\n";
    let suggestions = analyzer.analyze("app.js", code);
    assert!(suggestions.iter().any(|s| s.message.contains("===") && s.column == 5));
    assert!(suggestions.iter().any(|s| s.kind == "security" && s.column == 14));
}

#[test]
fn unknown_extensions_get_no_suggestions() {
    let analyzer = CodeAnalyzer::new();
    assert_eq!(analyzer.analyze("notes.txt", "eval('x')\n").len(), 0);
}

#[test]
fn function_lengths_are_measured_by_brace_depth() {
    let analyzer = CodeAnalyzer::new();
    let code = "function foo() {\n  a();\n  b();\n}\n";
    let spans = analyzer.detect_function_lengths(code);
    assert_eq!(spans, vec![("foo".to_string(), 1, 3)]);
}

#[test]
fn long_functions_are_flagged() {
    let analyzer = CodeAnalyzer::new();
    let mut code = String::from("function big() {\n");
    for _ in 0..55 {
        code.push_str("  work();\n");
    }
    code.push_str("}\n");
    let suggestions = analyzer.analyze("big.ts", &code);
    assert!(suggestions.iter().any(|s| s.kind == "complexity" && s.message.contains("big")));
}
