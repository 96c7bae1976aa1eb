//! The per-line rule checker: given one file's path and text, flags style and
//! security patterns, line by line, with a language dispatch keyed on the
//! path's extension. It has no shared state with the graph or the index and
//! does no cross-file reasoning.

use vstd::prelude::*;

use crate::paths::{dot_ext_chars, spec_dot_ext};
use crate::text::{
    chars_eq_str,
    chars_of,
    contains_seq,
    contains_sub,
    dec_chars,
    find_sub,
    lines_of,
    lit_chars,
    lower_of,
    lowercase,
    spec_find,
    spec_lines,
    starts_with_seq,
    starts_with_sub,
    string_of,
    sub_chars,
    trim_chars,
    trim_seq,
    usize_dec_string,
    word_prefix,
    word_prefix_chars,
};

verus! {

/// One flagged issue in the analyzed text.
pub struct CodeSuggestion {
    pub kind: String,
    pub message: String,
    pub line: usize,
    pub column: usize,
    pub severity: String,
    pub fix: Option<String>,
}

/// The mathematical value of a [`CodeSuggestion`].
pub ghost struct SuggestionView {
    pub kind: Seq<char>,
    pub message: Seq<char>,
    pub line: int,
    pub column: int,
    pub severity: Seq<char>,
    pub fix: Option<Seq<char>>,
}

impl View for CodeSuggestion {
    type V = SuggestionView;

    open spec fn view(&self) -> SuggestionView {
        SuggestionView {
            kind: self.kind@,
            message: self.message@,
            line: self.line as int,
            column: self.column as int,
            severity: self.severity@,
            fix: match self.fix {
                Some(ref t) => Some(t@),
                None => None,
            },
        }
    }
}

impl DeepView for CodeSuggestion {
    type V = SuggestionView;

    open spec fn deep_view(&self) -> SuggestionView {
        self.view()
    }
}

/// The rules the analyzer applies.
#[derive(Clone, Copy, Debug, PartialEq, Eq, Structural)]
pub enum AnalysisRule {
    UnusedImports,
    MissingTypes,
    LongFunctions,
    ComplexConditions,
    DuplicateCode,
    SecurityPatterns,
    PerformanceHints,
}

/// Lightweight code analyzer for quick per-line suggestions.
pub struct CodeAnalyzer {
    pub enabled_rules: Vec<AnalysisRule>,
}

/// Index of the first occurrence of the pattern, or zero when there is none,
/// as the reported column of a flagged line.
pub open spec fn find0(line: Seq<char>, pat: Seq<char>) -> int {
    if spec_find(line, pat) >= 0 {
        spec_find(line, pat)
    } else {
        0
    }
}

/// Column of the pattern in the line, as [`find0`].
fn find0_exec(line: &[char], pat: &str) -> (r: usize)
    ensures
        r == find0(line@, pat@),
{
    match find_sub(line, &lit_chars(pat)) {
        Some(i) => i,
        None => 0,
    }
}

/// The suggestion, if any, a rule yields for one line: the `seq` is empty or
/// a singleton.
pub open spec fn rule_opt(cond: bool, s: SuggestionView) -> Seq<SuggestionView> {
    if cond {
        seq![s]
    } else {
        Seq::empty()
    }
}

/// `any`-typed code on a line of TypeScript.
pub open spec fn ts_any(line: Seq<char>, num: int) -> Seq<SuggestionView> {
    let t = trim_seq(line);
    rule_opt(
        contains_seq(t, ": any"@) || contains_seq(t, "<any>"@),
        SuggestionView {
            kind: "type"@,
            message: "Avoid using 'any' type - use proper typing for better type safety"@,
            line: num,
            column: find0(line, "any"@),
            severity: "warning"@,
            fix: None,
        },
    )
}

/// A console log left on a non-test line.
pub open spec fn ts_console(line: Seq<char>, num: int) -> Seq<SuggestionView> {
    let t = trim_seq(line);
    rule_opt(
        contains_seq(t, "console.log"@) && !contains_seq(lower_of(t), "test"@),
        SuggestionView {
            kind: "quality"@,
            message: "Remove console.log before production"@,
            line: num,
            column: find0(line, "console"@),
            severity: "info"@,
            fix: Some("// Remove this line"@),
        },
    )
}

/// Loose equality on a line without strict equality.
pub open spec fn ts_eq(line: Seq<char>, num: int) -> Seq<SuggestionView> {
    let t = trim_seq(line);
    rule_opt(
        contains_seq(t, " == "@) && !contains_seq(t, " === "@),
        SuggestionView {
            kind: "quality"@,
            message: "Use === instead of == for strict equality"@,
            line: num,
            column: find0(line, " == "@),
            severity: "warning"@,
            fix: Some("==="@),
        },
    )
}

/// A dynamic-code-execution call.
pub open spec fn ts_eval(line: Seq<char>, num: int) -> Seq<SuggestionView> {
    let t = trim_seq(line);
    rule_opt(
        contains_seq(t, "eval("@),
        SuggestionView {
            kind: "security"@,
            message: "Avoid using eval() - it can execute arbitrary code"@,
            line: num,
            column: find0(line, "eval"@),
            severity: "error"@,
            fix: None,
        },
    )
}

/// Raw markup assignment open to script injection.
pub open spec fn ts_inner_html(line: Seq<char>, num: int) -> Seq<SuggestionView> {
    let t = trim_seq(line);
    rule_opt(
        contains_seq(t, "innerHTML"@),
        SuggestionView {
            kind: "security"@,
            message:
                "innerHTML can cause XSS vulnerabilities - use textContent or sanitize input"@,
            line: num,
            column: find0(line, "innerHTML"@),
            severity: "warning"@,
            fix: None,
        },
    )
}

/// A line over the length limit.
pub open spec fn ts_long_line(line: Seq<char>, num: int) -> Seq<SuggestionView> {
    rule_opt(
        line.len() > 120,
        SuggestionView {
            kind: "style"@,
            message: "Line exceeds 120 characters ("@ + dec_chars(line.len() as int) + " chars)"@,
            line: num,
            column: 120,
            severity: "info"@,
            fix: None,
        },
    )
}

/// All suggestions the TypeScript rules yield for one line, in rule order.
pub open spec fn ts_line(line: Seq<char>, num: int) -> Seq<SuggestionView> {
    ts_any(line, num) + ts_console(line, num) + ts_eq(line, num) + ts_eval(line, num)
        + ts_inner_html(line, num) + ts_long_line(line, num)
}

/// The per-line TypeScript suggestions over all lines, in line order.
pub open spec fn ts_all_lines(lines: Seq<Seq<char>>) -> Seq<SuggestionView>
    decreases lines.len(),
{
    if lines.len() == 0 {
        Seq::empty()
    } else {
        ts_all_lines(lines.drop_last()) + ts_line(lines.last(), lines.len() as int)
    }
}

/// An unchecked-result call on a line of Rust.
pub open spec fn rs_unwrap(line: Seq<char>, num: int) -> Seq<SuggestionView> {
    let t = trim_seq(line);
    rule_opt(
        contains_seq(t, ".unwrap()"@),
        SuggestionView {
            kind: "quality"@,
            message: "Consider using ? operator or proper error handling instead of unwrap()"@,
            line: num,
            column: find0(line, "unwrap"@),
            severity: "warning"@,
            fix: None,
        },
    )
}

/// An abort on a non-comment line.
pub open spec fn rs_panic(line: Seq<char>, num: int) -> Seq<SuggestionView> {
    let t = trim_seq(line);
    rule_opt(
        contains_seq(t, "panic!"@) && !starts_with_seq(t, "//"@),
        SuggestionView {
            kind: "quality"@,
            message: "Consider returning Result instead of using panic!"@,
            line: num,
            column: find0(line, "panic"@),
            severity: "warning"@,
            fix: None,
        },
    )
}

/// A block outside the language's safety checks.
pub open spec fn rs_unsafe(line: Seq<char>, num: int) -> Seq<SuggestionView> {
    let t = trim_seq(line);
    rule_opt(
        starts_with_seq(t, "unsafe"@),
        SuggestionView {
            kind: "security"@,
            message: "Unsafe block detected - ensure memory safety is maintained"@,
            line: num,
            column: 0,
            severity: "info"@,
            fix: None,
        },
    )
}

/// All suggestions the Rust rules yield for one line.
pub open spec fn rs_line(line: Seq<char>, num: int) -> Seq<SuggestionView> {
    rs_unwrap(line, num) + rs_panic(line, num) + rs_unsafe(line, num)
}

/// The per-line Rust suggestions over all lines.
pub open spec fn rs_all_lines(lines: Seq<Seq<char>>) -> Seq<SuggestionView>
    decreases lines.len(),
{
    if lines.len() == 0 {
        Seq::empty()
    } else {
        rs_all_lines(lines.drop_last()) + rs_line(lines.last(), lines.len() as int)
    }
}

/// A broad exception handler on a line of Python.
pub open spec fn py_except(line: Seq<char>, num: int) -> Seq<SuggestionView> {
    let t = trim_seq(line);
    rule_opt(
        starts_with_seq(t, "except:"@),
        SuggestionView {
            kind: "quality"@,
            message: "Avoid bare 'except:' - catch specific exceptions"@,
            line: num,
            column: 0,
            severity: "warning"@,
            fix: Some("except Exception as e:"@),
        },
    )
}

/// A dynamic-code-execution call on a line of Python.
pub open spec fn py_exec(line: Seq<char>, num: int) -> Seq<SuggestionView> {
    let t = trim_seq(line);
    rule_opt(
        contains_seq(t, "exec("@) || contains_seq(t, "eval("@),
        SuggestionView {
            kind: "security"@,
            message: "Avoid exec/eval - they can execute arbitrary code"@,
            line: num,
            column: if spec_find(line, "exec"@) >= 0 {
                spec_find(line, "exec"@)
            } else {
                find0(line, "eval"@)
            },
            severity: "error"@,
            fix: None,
        },
    )
}

/// All suggestions the Python rules yield for one line.
pub open spec fn py_line(line: Seq<char>, num: int) -> Seq<SuggestionView> {
    py_except(line, num) + py_exec(line, num)
}

/// The per-line Python suggestions over all lines.
pub open spec fn py_all_lines(lines: Seq<Seq<char>>) -> Seq<SuggestionView>
    decreases lines.len(),
{
    if lines.len() == 0 {
        Seq::empty()
    } else {
        py_all_lines(lines.drop_last()) + py_line(lines.last(), lines.len() as int)
    }
}

/// The suggestions for a file, dispatched on the path's extension: the
/// TypeScript rules for `ts`/`tsx`/`js`/`jsx`, the Rust rules for `rs`, the
/// Python rules for `py`, and nothing otherwise.
pub open spec fn spec_analyze(path: Seq<char>, content: Seq<char>) -> Seq<SuggestionView> {
    let ext = spec_dot_ext(path);
    if ext == "ts"@ || ext == "tsx"@ || ext == "js"@ || ext == "jsx"@ {
        spec_analyze_typescript(content)
    } else if ext == "rs"@ {
        rs_all_lines(spec_lines(content))
    } else if ext == "py"@ {
        py_all_lines(spec_lines(content))
    } else {
        Seq::empty()
    }
}

/// The TypeScript suggestions for a text: the per-line rules, then one
/// complexity note per function body longer than fifty lines.
pub open spec fn spec_analyze_typescript(content: Seq<char>) -> Seq<SuggestionView> {
    ts_all_lines(spec_lines(content)) + long_fn_suggs(spec_function_lengths(content))
}

/// One complexity note per detected function span longer than fifty lines.
pub open spec fn long_fn_suggs(results: Seq<(Seq<char>, int, int)>) -> Seq<SuggestionView>
    decreases results.len(),
{
    if results.len() == 0 {
        Seq::empty()
    } else {
        long_fn_suggs(results.drop_last()) + rule_opt(
            results.last().2 > 50,
            SuggestionView {
                kind: "complexity"@,
                message: "Function '"@ + results.last().0 + "' is "@ + dec_chars(results.last().2)
                    + " lines long - consider refactoring"@,
                line: results.last().1,
                column: 0,
                severity: "info"@,
                fix: None,
            },
        )
    }
}

/// The brace-nesting state of the function-length heuristic.
pub ghost struct FlState {
    pub in_function: bool,
    pub name: Seq<char>,
    pub start: int,
    pub brace: int,
    pub results: Seq<(Seq<char>, int, int)>,
}

/// Whether a trimmed line looks like it opens a function.
pub open spec fn fl_starts(t: Seq<char>) -> bool {
    ||| starts_with_seq(t, "function "@)
    ||| starts_with_seq(t, "async function "@)
    ||| contains_seq(t, "= function"@)
    ||| contains_seq(t, "=> {"@)
    ||| (contains_seq(t, "("@) && contains_seq(t, ") {"@) && !starts_with_seq(t, "//"@))
}

/// The detected function name on an opening line: the identifier after
/// `function `, or a placeholder naming the line.
pub open spec fn fl_name(t: Seq<char>, num: int) -> Seq<char> {
    if spec_find(t, "function "@) >= 0 {
        word_prefix(t.skip(spec_find(t, "function "@) + 9))
    } else {
        "anonymous@"@ + dec_chars(num)
    }
}

/// One step of the brace counter over the characters of a line.
pub open spec fn fl_chars(st: FlState, line: Seq<char>, num: int, i: int) -> FlState
    decreases line.len() - i + 1,
{
    if i < 0 || i >= line.len() {
        st
    } else {
        let c = line[i];
        let st2 = if c == '{' {
            FlState { brace: st.brace + 1, ..st }
        } else if c == '}' {
            let b = st.brace - 1;
            if b == 0 && st.in_function {
                FlState {
                    in_function: false,
                    brace: b,
                    results: st.results.push((st.name, st.start, num - st.start)),
                    ..st
                }
            } else {
                FlState { brace: b, ..st }
            }
        } else {
            st
        };
        fl_chars(st2, line, num, i + 1)
    }
}

/// The state after one line: function-opening detection, then the brace scan
/// of the whole line.
pub open spec fn fl_step_line(st: FlState, line: Seq<char>, num: int) -> FlState {
    let t = trim_seq(line);
    let st1 = if fl_starts(t) && !st.in_function {
        FlState { in_function: true, start: num, name: fl_name(t, num), ..st }
    } else {
        st
    };
    fl_chars(st1, line, num, 0)
}

/// The state after the lines from position `i` on.
pub open spec fn fl_lines(lines: Seq<Seq<char>>, i: int, st: FlState) -> FlState
    decreases lines.len() - i + 1,
{
    if i < 0 || i >= lines.len() {
        st
    } else {
        fl_lines(lines, i + 1, fl_step_line(st, lines[i], i + 1))
    }
}

/// The initial state of the brace counter.
pub open spec fn fl_init() -> FlState {
    FlState { in_function: false, name: Seq::empty(), start: 0, brace: 0, results: Seq::empty() }
}

/// The function spans the brace-counting heuristic detects in the text:
/// (name, 1-based starting line, body line count).
pub open spec fn spec_function_lengths(content: Seq<char>) -> Seq<(Seq<char>, int, int)> {
    fl_lines(spec_lines(content), 0, fl_init()).results
}

/// The spec-level spans an exec result vector carries.
pub open spec fn spans_view(r: Seq<(String, usize, usize)>) -> Seq<(Seq<char>, int, int)>
    decreases r.len(),
{
    if r.len() == 0 {
        Seq::empty()
    } else {
        spans_view(r.drop_last()).push(
            (r.last().0@, r.last().1 as int, r.last().2 as int),
        )
    }
}

/// The exec results carry exactly the spec spans.
pub open spec fn spans_match(r: Seq<(String, usize, usize)>, s: Seq<(Seq<char>, int, int)>) -> bool {
    &&& r.len() == s.len()
    &&& forall|k: int|
        0 <= k < r.len() ==> (#[trigger] r[k]).0@ == s[k].0 && r[k].1 == s[k].1 && r[k].2 == s[k].2
}

/// Whether the text, lowercased, holds the pattern: how the analyzer tells a
/// test-related line from production code.
pub fn file_path_contains(content: &str, pattern: &str) -> (r: bool)
    ensures
        r == contains_seq(lower_of(content@), pattern@),
{
    let cl = lowercase(content);
    let cc = chars_of(cl.as_str());
    let pc = chars_of(pattern);
    contains_sub(&cc, &pc)
}

/// The TypeScript suggestions for one line, as [`ts_line`].
fn ts_line_exec(line: &[char], num: usize) -> (out: Vec<CodeSuggestion>)
    ensures
        out.deep_view() == ts_line(line@, num as int),
{
    let ghost numi = num as int;
    let t = trim_chars(line);
    let ts_str = string_of(&t);
    let tl = lowercase(ts_str.as_str());
    let tlc = chars_of(tl.as_str());
    let mut out: Vec<CodeSuggestion> = Vec::new();
    proof {
        assert(out.deep_view() =~= Seq::<SuggestionView>::empty());
    }
    if contains_sub(&t, &lit_chars(": any")) || contains_sub(&t, &lit_chars("<any>")) {
        let ghost pre = out.deep_view();
        let cs = CodeSuggestion {
            kind: String::from_str("type"),
            message: String::from_str(
                "Avoid using 'any' type - use proper typing for better type safety",
            ),
            line: num,
            column: find0_exec(line, "any"),
            severity: String::from_str("warning"),
            fix: None,
        };
        out.push(cs);
        assert(out.deep_view() =~= pre.push(out@.last()@));
    }
    proof {
        assert(out.deep_view() =~= ts_any(line@, numi));
    }
    if contains_sub(&t, &lit_chars("console.log")) && !contains_sub(&tlc, &lit_chars("test")) {
        let ghost pre = out.deep_view();
        let cs = CodeSuggestion {
            kind: String::from_str("quality"),
            message: String::from_str("Remove console.log before production"),
            line: num,
            column: find0_exec(line, "console"),
            severity: String::from_str("info"),
            fix: Some(String::from_str("// Remove this line")),
        };
        out.push(cs);
        assert(out.deep_view() =~= pre.push(out@.last()@));
    }
    proof {
        assert(out.deep_view() =~= ts_any(line@, numi) + ts_console(line@, numi));
    }
    if contains_sub(&t, &lit_chars(" == ")) && !contains_sub(&t, &lit_chars(" === ")) {
        let ghost pre = out.deep_view();
        let cs = CodeSuggestion {
            kind: String::from_str("quality"),
            message: String::from_str("Use === instead of == for strict equality"),
            line: num,
            column: find0_exec(line, " == "),
            severity: String::from_str("warning"),
            fix: Some(String::from_str("===")),
        };
        out.push(cs);
        assert(out.deep_view() =~= pre.push(out@.last()@));
    }
    proof {
        assert(out.deep_view() =~= ts_any(line@, numi) + ts_console(line@, numi) + ts_eq(
            line@,
            numi,
        ));
    }
    if contains_sub(&t, &lit_chars("eval(")) {
        let ghost pre = out.deep_view();
        let cs = CodeSuggestion {
            kind: String::from_str("security"),
            message: String::from_str("Avoid using eval() - it can execute arbitrary code"),
            line: num,
            column: find0_exec(line, "eval"),
            severity: String::from_str("error"),
            fix: None,
        };
        out.push(cs);
        assert(out.deep_view() =~= pre.push(out@.last()@));
    }
    proof {
        assert(out.deep_view() =~= ts_any(line@, numi) + ts_console(line@, numi) + ts_eq(
            line@,
            numi,
        ) + ts_eval(line@, numi));
    }
    if contains_sub(&t, &lit_chars("innerHTML")) {
        let ghost pre = out.deep_view();
        let cs = CodeSuggestion {
            kind: String::from_str("security"),
            message: String::from_str(
                "innerHTML can cause XSS vulnerabilities - use textContent or sanitize input",
            ),
            line: num,
            column: find0_exec(line, "innerHTML"),
            severity: String::from_str("warning"),
            fix: None,
        };
        out.push(cs);
        assert(out.deep_view() =~= pre.push(out@.last()@));
    }
    proof {
        assert(out.deep_view() =~= ts_any(line@, numi) + ts_console(line@, numi) + ts_eq(
            line@,
            numi,
        ) + ts_eval(line@, numi) + ts_inner_html(line@, numi));
    }
    if line.len() > 120 {
        let ghost pre = out.deep_view();
        let len_str = usize_dec_string(line.len());
        let msg = String::from_str("Line exceeds 120 characters (").concat(
            len_str.as_str(),
        ).concat(" chars)");
        let cs = CodeSuggestion {
            kind: String::from_str("style"),
            message: msg,
            line: num,
            column: 120,
            severity: String::from_str("info"),
            fix: None,
        };
        out.push(cs);
        assert(out.deep_view() =~= pre.push(out@.last()@));
    }
    proof {
        assert(out.deep_view() =~= ts_line(line@, numi));
    }
    out
}

/// The Rust suggestions for one line, as [`rs_line`].
fn rs_line_exec(line: &[char], num: usize) -> (out: Vec<CodeSuggestion>)
    ensures
        out.deep_view() == rs_line(line@, num as int),
{
    let ghost numi = num as int;
    let t = trim_chars(line);
    let mut out: Vec<CodeSuggestion> = Vec::new();
    proof {
        assert(out.deep_view() =~= Seq::<SuggestionView>::empty());
    }
    if contains_sub(&t, &lit_chars(".unwrap()")) {
        let ghost pre = out.deep_view();
        let cs = CodeSuggestion {
            kind: String::from_str("quality"),
            message: String::from_str(
                "Consider using ? operator or proper error handling instead of unwrap()",
            ),
            line: num,
            column: find0_exec(line, "unwrap"),
            severity: String::from_str("warning"),
            fix: None,
        };
        out.push(cs);
        assert(out.deep_view() =~= pre.push(out@.last()@));
    }
    proof {
        assert(out.deep_view() =~= rs_unwrap(line@, numi));
    }
    if contains_sub(&t, &lit_chars("panic!")) && !starts_with_sub(&t, &lit_chars("//")) {
        let ghost pre = out.deep_view();
        let cs = CodeSuggestion {
            kind: String::from_str("quality"),
            message: String::from_str("Consider returning Result instead of using panic!"),
            line: num,
            column: find0_exec(line, "panic"),
            severity: String::from_str("warning"),
            fix: None,
        };
        out.push(cs);
        assert(out.deep_view() =~= pre.push(out@.last()@));
    }
    proof {
        assert(out.deep_view() =~= rs_unwrap(line@, numi) + rs_panic(line@, numi));
    }
    if starts_with_sub(&t, &lit_chars("unsafe")) {
        let ghost pre = out.deep_view();
        let cs = CodeSuggestion {
            kind: String::from_str("security"),
            message: String::from_str(
                "Unsafe block detected - ensure memory safety is maintained",
            ),
            line: num,
            column: 0,
            severity: String::from_str("info"),
            fix: None,
        };
        out.push(cs);
        assert(out.deep_view() =~= pre.push(out@.last()@));
    }
    proof {
        assert(out.deep_view() =~= rs_line(line@, numi));
    }
    out
}

/// The Python suggestions for one line, as [`py_line`].
fn py_line_exec(line: &[char], num: usize) -> (out: Vec<CodeSuggestion>)
    ensures
        out.deep_view() == py_line(line@, num as int),
{
    let ghost numi = num as int;
    let t = trim_chars(line);
    let mut out: Vec<CodeSuggestion> = Vec::new();
    proof {
        assert(out.deep_view() =~= Seq::<SuggestionView>::empty());
    }
    if starts_with_sub(&t, &lit_chars("except:")) {
        let ghost pre = out.deep_view();
        let cs = CodeSuggestion {
            kind: String::from_str("quality"),
            message: String::from_str("Avoid bare 'except:' - catch specific exceptions"),
            line: num,
            column: 0,
            severity: String::from_str("warning"),
            fix: Some(String::from_str("except Exception as e:")),
        };
        out.push(cs);
        assert(out.deep_view() =~= pre.push(out@.last()@));
    }
    proof {
        assert(out.deep_view() =~= py_except(line@, numi));
    }
    if contains_sub(&t, &lit_chars("exec(")) || contains_sub(&t, &lit_chars("eval(")) {
        let ghost pre = out.deep_view();
        let col: usize = match find_sub(line, &lit_chars("exec")) {
            Some(i) => i,
            None => find0_exec(line, "eval"),
        };
        let cs = CodeSuggestion {
            kind: String::from_str("security"),
            message: String::from_str("Avoid exec/eval - they can execute arbitrary code"),
            line: num,
            column: col,
            severity: String::from_str("error"),
            fix: None,
        };
        out.push(cs);
        assert(out.deep_view() =~= pre.push(out@.last()@));
    }
    proof {
        assert(out.deep_view() =~= py_line(line@, numi));
    }
    out
}

proof fn lemma_total_len_nonneg(ls: Seq<Seq<char>>)
    ensures
        crate::text::total_len(ls) >= 0,
    decreases ls.len(),
{
    if ls.len() > 0 {
        lemma_total_len_nonneg(ls.drop_last());
    }
}

proof fn lemma_total_len_take_le(ls: Seq<Seq<char>>, i: int)
    requires
        0 <= i <= ls.len(),
    ensures
        crate::text::total_len(ls.take(i)) <= crate::text::total_len(ls),
    decreases ls.len() - i,
{
    if i == ls.len() {
        assert(ls.take(i) =~= ls);
    } else {
        assert(ls.take(i + 1).drop_last() =~= ls.take(i));
        assert(ls.take(i + 1).last() == ls[i]);
        lemma_total_len_take_le(ls, i + 1);
    }
}

impl CodeAnalyzer {
    /// The configured rules.
    pub open spec fn spec_rules(self) -> Seq<AnalysisRule> {
        self.enabled_rules@
    }

    /// An analyzer with the default rule set.
    pub fn new() -> (r: Self)
        ensures
            r.spec_rules() == seq![
                AnalysisRule::UnusedImports,
                AnalysisRule::MissingTypes,
                AnalysisRule::LongFunctions,
                AnalysisRule::SecurityPatterns,
                AnalysisRule::PerformanceHints,
            ],
    {
        let mut rules: Vec<AnalysisRule> = Vec::new();
        rules.push(AnalysisRule::UnusedImports);
        rules.push(AnalysisRule::MissingTypes);
        rules.push(AnalysisRule::LongFunctions);
        rules.push(AnalysisRule::SecurityPatterns);
        rules.push(AnalysisRule::PerformanceHints);
        proof {
            assert(rules@ =~= seq![
                AnalysisRule::UnusedImports,
                AnalysisRule::MissingTypes,
                AnalysisRule::LongFunctions,
                AnalysisRule::SecurityPatterns,
                AnalysisRule::PerformanceHints,
            ]);
        }
        CodeAnalyzer { enabled_rules: rules }
    }

    /// Analyze a file's text and return the flagged issues, dispatching on
    /// the path's extension.
    pub fn analyze(&self, file_path: &str, content: &str) -> (r: Vec<CodeSuggestion>)
        ensures
            r.deep_view() == spec_analyze(file_path@, content@),
    {
        let pc = chars_of(file_path);
        let ext = dot_ext_chars(&pc);
        if chars_eq_str(&ext, "ts") || chars_eq_str(&ext, "tsx") || chars_eq_str(&ext, "js")
            || chars_eq_str(&ext, "jsx") {
            self.analyze_typescript(content)
        } else if chars_eq_str(&ext, "rs") {
            self.analyze_rust(content)
        } else if chars_eq_str(&ext, "py") {
            self.analyze_python(content)
        } else {
            let r: Vec<CodeSuggestion> = Vec::new();
            assert(r.deep_view() =~= Seq::<SuggestionView>::empty());
            r
        }
    }

    /// The TypeScript rules over every line, then a complexity note per
    /// function body longer than fifty lines.
    pub fn analyze_typescript(&self, content: &str) -> (r: Vec<CodeSuggestion>)
        ensures
            r.deep_view() == spec_analyze_typescript(content@),
    {
        let cc = chars_of(content);
        let lines = lines_of(&cc);
        let ghost lv = lines.deep_view();
        let n = lines.len();
        let mut out: Vec<CodeSuggestion> = Vec::new();
        proof {
            assert(lv.take(0) =~= Seq::<Seq<char>>::empty());
            assert(out.deep_view() =~= ts_all_lines(lv.take(0)));
        }
        let mut i: usize = 0;
        while i < n
            invariant
                n == lines@.len(),
                i <= n,
                lv == lines.deep_view(),
                lv == spec_lines(content@),
                out.deep_view() == ts_all_lines(lv.take(i as int)),
            decreases n - i,
        {
            assert(lv[i as int] == lines@[i as int]@);
            let ghost pre = out.deep_view();
            let mut part = ts_line_exec(lines[i].as_slice(), i + 1);
            let ghost pv = part.deep_view();
            out.append(&mut part);
            proof {
                assert(out.deep_view() =~= pre + pv);
                assert(lv.take(i + 1).drop_last() =~= lv.take(i as int));
                assert(lv.take(i + 1).last() == lv[i as int]);
                assert(lv.take(i + 1).len() == i + 1);
            }
            i = i + 1;
        }
        proof {
            assert(lv.take(n as int) =~= lv);
        }
        let spans = self.detect_function_lengths(content);
        let ghost sv = spec_function_lengths(content@);
        let ghost ts_part = out.deep_view();
        let m = spans.len();
        proof {
            assert(sv.take(0) =~= Seq::<(Seq<char>, int, int)>::empty());
            assert(out.deep_view() =~= ts_part + long_fn_suggs(sv.take(0)));
        }
        let mut k: usize = 0;
        while k < m
            invariant
                m == spans@.len(),
                k <= m,
                sv == spec_function_lengths(content@),
                spans_match(spans@, sv),
                ts_part == ts_all_lines(spec_lines(content@)),
                out.deep_view() == ts_part + long_fn_suggs(sv.take(k as int)),
            decreases m - k,
        {
            proof {
                assert(sv.take(k + 1).drop_last() =~= sv.take(k as int));
                assert(sv.take(k + 1).last() == sv[k as int]);
            }
            if spans[k].2 > 50 {
                let ghost pre = out.deep_view();
                let len_str = usize_dec_string(spans[k].2);
                let msg = String::from_str("Function '").concat(spans[k].0.as_str()).concat(
                    "' is ",
                ).concat(len_str.as_str()).concat(" lines long - consider refactoring");
                let cs = CodeSuggestion {
                    kind: String::from_str("complexity"),
                    message: msg,
                    line: spans[k].1,
                    column: 0,
                    severity: String::from_str("info"),
                    fix: None,
                };
                out.push(cs);
                assert(out.deep_view() =~= pre.push(out@.last()@));
            }
            proof {
                assert(out.deep_view() =~= ts_part + long_fn_suggs(sv.take(k + 1)));
            }
            k = k + 1;
        }
        proof {
            assert(sv.take(m as int) =~= sv);
        }
        out
    }

    /// The Rust rules over every line.
    pub fn analyze_rust(&self, content: &str) -> (r: Vec<CodeSuggestion>)
        ensures
            r.deep_view() == rs_all_lines(spec_lines(content@)),
    {
        let cc = chars_of(content);
        let lines = lines_of(&cc);
        let ghost lv = lines.deep_view();
        let n = lines.len();
        let mut out: Vec<CodeSuggestion> = Vec::new();
        proof {
            assert(lv.take(0) =~= Seq::<Seq<char>>::empty());
            assert(out.deep_view() =~= rs_all_lines(lv.take(0)));
        }
        let mut i: usize = 0;
        while i < n
            invariant
                n == lines@.len(),
                i <= n,
                lv == lines.deep_view(),
                lv == spec_lines(content@),
                out.deep_view() == rs_all_lines(lv.take(i as int)),
            decreases n - i,
        {
            assert(lv[i as int] == lines@[i as int]@);
            let ghost pre = out.deep_view();
            let mut part = rs_line_exec(lines[i].as_slice(), i + 1);
            let ghost pv = part.deep_view();
            out.append(&mut part);
            proof {
                assert(out.deep_view() =~= pre + pv);
                assert(lv.take(i + 1).drop_last() =~= lv.take(i as int));
                assert(lv.take(i + 1).last() == lv[i as int]);
                assert(lv.take(i + 1).len() == i + 1);
            }
            i = i + 1;
        }
        proof {
            assert(lv.take(n as int) =~= lv);
        }
        out
    }

    /// The Python rules over every line.
    pub fn analyze_python(&self, content: &str) -> (r: Vec<CodeSuggestion>)
        ensures
            r.deep_view() == py_all_lines(spec_lines(content@)),
    {
        let cc = chars_of(content);
        let lines = lines_of(&cc);
        let ghost lv = lines.deep_view();
        let n = lines.len();
        let mut out: Vec<CodeSuggestion> = Vec::new();
        proof {
            assert(lv.take(0) =~= Seq::<Seq<char>>::empty());
            assert(out.deep_view() =~= py_all_lines(lv.take(0)));
        }
        let mut i: usize = 0;
        while i < n
            invariant
                n == lines@.len(),
                i <= n,
                lv == lines.deep_view(),
                lv == spec_lines(content@),
                out.deep_view() == py_all_lines(lv.take(i as int)),
            decreases n - i,
        {
            assert(lv[i as int] == lines@[i as int]@);
            let ghost pre = out.deep_view();
            let mut part = py_line_exec(lines[i].as_slice(), i + 1);
            let ghost pv = part.deep_view();
            out.append(&mut part);
            proof {
                assert(out.deep_view() =~= pre + pv);
                assert(lv.take(i + 1).drop_last() =~= lv.take(i as int));
                assert(lv.take(i + 1).last() == lv[i as int]);
                assert(lv.take(i + 1).len() == i + 1);
            }
            i = i + 1;
        }
        proof {
            assert(lv.take(n as int) =~= lv);
        }
        out
    }

    /// The function spans the brace-nesting heuristic detects: a simple
    /// stack-depth counter, not a parser. See [`spec_function_lengths`].
    pub fn detect_function_lengths(&self, content: &str) -> (r: Vec<(String, usize, usize)>)
        ensures
            spans_match(r@, spec_function_lengths(content@)),
    {
        let cc = chars_of(content);
        let total = cc.len();
        let lines = lines_of(&cc);
        let ghost lv = lines.deep_view();
        proof {
            crate::text::lemma_lines_total(cc@);
            lemma_total_len_nonneg(lv);
        }
        let n = lines.len();
        let mut in_function = false;
        let mut name = String::new();
        let mut start: usize = 0;
        let mut brace: i128 = 0;
        let mut results: Vec<(String, usize, usize)> = Vec::new();
        proof {
            let st0 = FlState {
                in_function: false,
                name: Seq::empty(),
                start: 0,
                brace: 0,
                results: Seq::empty(),
            };
            assert(spans_view(results@) =~= Seq::<(Seq<char>, int, int)>::empty());
            assert(st0 == fl_init());
            assert(lv.take(0) =~= Seq::<Seq<char>>::empty());
        }
        let mut i: usize = 0;
        while i < n
            invariant
                n == lines@.len(),
                i <= n,
                lv == lines.deep_view(),
                lv == spec_lines(content@),
                crate::text::total_len(lv) <= total,
                in_function ==> 1 <= start <= i,
                spans_match(results@, spans_view(results@)),
                -crate::text::total_len(lv.take(i as int)) <= brace
                    <= crate::text::total_len(lv.take(i as int)),
                fl_lines(lv, i as int, FlState {
                    in_function: in_function,
                    name: name@,
                    start: start as int,
                    brace: brace as int,
                    results: spans_view(results@),
                }) == fl_lines(lv, 0, fl_init()),
            decreases n - i,
        {
            let ghost st_entry = FlState {
                in_function: in_function,
                name: name@,
                start: start as int,
                brace: brace as int,
                results: spans_view(results@),
            };
            assert(lv[i as int] == lines@[i as int]@);
            let num = i + 1;
            let t = trim_chars(lines[i].as_slice());
            let tl = t.len();
            let starts = starts_with_sub(&t, &lit_chars("function ")) || starts_with_sub(
                &t,
                &lit_chars("async function "),
            ) || contains_sub(&t, &lit_chars("= function")) || contains_sub(&t, &lit_chars("=> {"))
                || (contains_sub(&t, &lit_chars("(")) && contains_sub(&t, &lit_chars(") {"))
                && !starts_with_sub(&t, &lit_chars("//")));
            if starts && !in_function {
                in_function = true;
                start = num;
                let fl = lit_chars("function ");
                match find_sub(&t, &fl) {
                    Some(fi) => {
                        proof {
                            reveal_strlit("function ");
                        }
                        let rest = sub_chars(&t, fi + fl.len(), tl);
                        assert(rest@ =~= t@.skip(fi + 9));
                        name = string_of(&word_prefix_chars(&rest));
                    },
                    None => {
                        let num_str = usize_dec_string(num);
                        name = String::from_str("anonymous@").concat(num_str.as_str());
                    },
                }
            }
            let ghost st1 = FlState {
                in_function: in_function,
                name: name@,
                start: start as int,
                brace: brace as int,
                results: spans_view(results@),
            };
            proof {
                assert(st1 == (if fl_starts(t@) && !st_entry.in_function {
                    FlState { in_function: true, start: num as int, name: fl_name(t@, num as int), ..st_entry }
                } else {
                    st_entry
                }));
            }
            let line_ref = &lines[i];
            let ll = line_ref.len();
            let ghost p0 = crate::text::total_len(lv.take(i as int));
            proof {
                assert(lv.take(i + 1).drop_last() =~= lv.take(i as int));
                assert(lv.take(i + 1).last() == lv[i as int]);
                lemma_total_len_take_le(lv, i + 1);
                lemma_total_len_nonneg(lv.take(i as int));
            }
            let mut j: usize = 0;
            while j < ll
                invariant
                    ll == line_ref@.len(),
                    j <= ll,
                    lv == lines.deep_view(),
                    line_ref@ == lv[i as int],
                    i < n == lv.len(),
                    num == i + 1,
                    crate::text::total_len(lv) <= total,
                    p0 == crate::text::total_len(lv.take(i as int)),
                    p0 >= 0,
                    p0 + ll <= crate::text::total_len(lv),
                    in_function ==> 1 <= start <= num,
                    spans_match(results@, spans_view(results@)),
                    -(p0 + j) <= brace <= p0 + j,
                    fl_chars(
                        FlState {
                            in_function: in_function,
                            name: name@,
                            start: start as int,
                            brace: brace as int,
                            results: spans_view(results@),
                        },
                        lv[i as int],
                        num as int,
                        j as int,
                    ) == fl_chars(st1, lv[i as int], num as int, 0),
                decreases ll - j,
            {
                let ghost stj = FlState {
                    in_function: in_function,
                    name: name@,
                    start: start as int,
                    brace: brace as int,
                    results: spans_view(results@),
                };
                let c = line_ref[j];
                if c == '{' {
                    brace = brace + 1;
                } else if c == '}' {
                    brace = brace - 1;
                    if brace == 0 && in_function {
                        let ghost rpre = results@;
                        let name_copy = name.clone();
                        results.push((name_copy, start, num - start));
                        proof {
                            assert(results@.drop_last() =~= rpre);
                            assert(results@.last().0@ == name@ && results@.last().1 == start
                                && results@.last().2 == num - start);
                            assert(spans_view(results@) =~= spans_view(rpre).push(
                                (name@, start as int, (num - start) as int),
                            ));
                            assert forall|k2: int|
                                0 <= k2 < results@.len() implies (#[trigger] results@[k2]).0@
                                == spans_view(results@)[k2].0 && results@[k2].1 == spans_view(
                                results@,
                            )[k2].1 && results@[k2].2 == spans_view(results@)[k2].2 by {
                                if k2 < rpre.len() {
                                    assert(results@[k2] == rpre[k2]);
                                    assert(spans_view(results@)[k2] == spans_view(rpre)[k2]);
                                }
                            }
                        }
                        in_function = false;
                    }
                }
                proof {
                    let stn = FlState {
                        in_function: in_function,
                        name: name@,
                        start: start as int,
                        brace: brace as int,
                        results: spans_view(results@),
                    };
                    assert(fl_chars(stj, lv[i as int], num as int, j as int) == fl_chars(
                        stn,
                        lv[i as int],
                        num as int,
                        j + 1,
                    ));
                }
                j = j + 1;
            }
            proof {
                let stf = FlState {
                    in_function: in_function,
                    name: name@,
                    start: start as int,
                    brace: brace as int,
                    results: spans_view(results@),
                };
                assert(fl_chars(stf, lv[i as int], num as int, ll as int) == stf);
                assert(stf == fl_chars(st1, lv[i as int], num as int, 0));
                assert(fl_step_line(st_entry, lv[i as int], num as int) == stf);
                assert(fl_lines(lv, i + 1, stf) == fl_lines(lv, i as int, st_entry));
            }
            i = i + 1;
        }
        proof {
            let stf = FlState {
                in_function: in_function,
                name: name@,
                start: start as int,
                brace: brace as int,
                results: spans_view(results@),
            };
            assert(fl_lines(lv, n as int, stf) == stf);
            assert(spans_view(results@) == spec_function_lengths(content@));
        }
        results
    }
}

} // verus!
