//! The per-file extractor: a pure function of a file's path and text that
//! discovers its import targets and its exported declarations by line-oriented
//! pattern matching, plus the relative-import resolver.
//!
//! The resolver never touches the filesystem: the caller hands it the list of
//! paths that exist on disk, and candidate probing is a lookup in that list.

use vstd::prelude::*;

use crate::graph::{distinct_seq, SymbolInfo, SymbolKind, SymbolView};
use crate::paths::{spec_join, spec_parent, strip_dot_slash, join_chars, parent_chars, strip_dot_slash_chars};
use crate::text::{
    chars_of,
    contains_seq,
    contains_sub,
    find_sub,
    lines_of,
    lit_chars,
    quote_char,
    quote_semi_char,
    spec_find,
    spec_lines,
    starts_with_seq,
    starts_with_sub,
    string_of,
    sub_chars,
    trim_chars,
    trim_p,
    trim_quote_semi,
    trim_quotes,
    trim_seq,
    word_prefix,
    word_prefix_chars,
    chars_eq_str,
    concat_chars,
};

verus! {

/// The canonical dependency key for an import specifier written in `from`:
/// a relative specifier, its leading `./` markers collapsed, is joined to the
/// importing file's parent directory and probed, in order, bare and with
/// each suffix of a fixed list against the set of existing paths; the first
/// hit wins, and a miss keeps the joined path as a best-effort key. A
/// non-relative specifier is an opaque package name, returned unchanged.
pub open spec fn spec_resolve(from: Seq<char>, import: Seq<char>, existing: Seq<Seq<char>>) -> Seq<
    char,
> {
    if import.len() > 0 && import[0] == '.' {
        let joined = spec_join(spec_parent(from), strip_dot_slash(import));
        if existing.contains(joined) {
            joined
        } else if existing.contains(joined + ".ts"@) {
            joined + ".ts"@
        } else if existing.contains(joined + ".tsx"@) {
            joined + ".tsx"@
        } else if existing.contains(joined + ".js"@) {
            joined + ".js"@
        } else if existing.contains(joined + ".jsx"@) {
            joined + ".jsx"@
        } else if existing.contains(joined + "/index.ts"@) {
            joined + "/index.ts"@
        } else if existing.contains(joined + "/index.js"@) {
            joined + "/index.js"@
        } else {
            joined
        }
    } else {
        import
    }
}

/// Whether some existing path has exactly these characters.
fn existing_contains(existing: &Vec<String>, cand: &[char]) -> (r: bool)
    ensures
        r == existing.deep_view().contains(cand@),
{
    let n = existing.len();
    let mut i: usize = 0;
    while i < n
        invariant
            n == existing@.len(),
            i <= n,
            forall|j: int| 0 <= j < i ==> existing.deep_view()[j] != cand@,
        decreases n - i,
    {
        if chars_eq_str(cand, existing[i].as_str()) {
            assert(existing.deep_view()[i as int] == cand@);
            return true;
        }
        i = i + 1;
    }
    false
}

/// Resolve an import specifier against the importing file's directory, as
/// [`spec_resolve`].
fn resolve_chars(from: &[char], import: &[char], existing: &Vec<String>) -> (r: Vec<char>)
    ensures
        r@ == spec_resolve(from@, import@, existing.deep_view()),
{
    if import.len() == 0 || import[0] != '.' {
        let r = sub_chars(import, 0, import.len());
        assert(r@ =~= import@);
        return r;
    }
    let parent = parent_chars(from);
    let stripped = strip_dot_slash_chars(import);
    let joined = join_chars(&parent, &stripped);
    if existing_contains(existing, &joined) {
        return joined;
    }
    let c_ts = concat_chars(&joined, &lit_chars(".ts"));
    if existing_contains(existing, &c_ts) {
        return c_ts;
    }
    let c_tsx = concat_chars(&joined, &lit_chars(".tsx"));
    if existing_contains(existing, &c_tsx) {
        return c_tsx;
    }
    let c_js = concat_chars(&joined, &lit_chars(".js"));
    if existing_contains(existing, &c_js) {
        return c_js;
    }
    let c_jsx = concat_chars(&joined, &lit_chars(".jsx"));
    if existing_contains(existing, &c_jsx) {
        return c_jsx;
    }
    let c_its = concat_chars(&joined, &lit_chars("/index.ts"));
    if existing_contains(existing, &c_its) {
        return c_its;
    }
    let c_ijs = concat_chars(&joined, &lit_chars("/index.js"));
    if existing_contains(existing, &c_ijs) {
        return c_ijs;
    }
    joined
}

/// Resolve an import specifier to a canonical dependency key, given the
/// paths that exist on disk. See [`spec_resolve`].
pub fn resolve_import(from_file: &str, import: &str, existing: &Vec<String>) -> (r: String)
    ensures
        r@ == spec_resolve(from_file@, import@, existing.deep_view()),
{
    let fc = chars_of(from_file);
    let ic = chars_of(import);
    let rc = resolve_chars(&fc, &ic, existing);
    string_of(&rc)
}

/// The name declared after the first of a fixed list of keywords that occurs
/// in the line with a nonempty identifier after it: the identifier-like run
/// following the keyword, after trimming.
pub open spec fn kw_name(line: Seq<char>, kw: Seq<char>) -> Option<Seq<char>> {
    let i = spec_find(line, kw);
    if i >= 0 {
        let name = word_prefix(trim_seq(line.skip(i + kw.len())));
        if name.len() > 0 {
            Some(name)
        } else {
            None
        }
    } else {
        None
    }
}

/// The declared name found in an export-like line, trying the declaration
/// keywords in a fixed order.
pub open spec fn spec_export_name(line: Seq<char>) -> Option<Seq<char>> {
    if kw_name(line, "function"@) is Some {
        kw_name(line, "function"@)
    } else if kw_name(line, "class"@) is Some {
        kw_name(line, "class"@)
    } else if kw_name(line, "const"@) is Some {
        kw_name(line, "const"@)
    } else if kw_name(line, "let"@) is Some {
        kw_name(line, "let"@)
    } else if kw_name(line, "var"@) is Some {
        kw_name(line, "var"@)
    } else if kw_name(line, "interface"@) is Some {
        kw_name(line, "interface"@)
    } else {
        kw_name(line, "type"@)
    }
}

/// The name after one keyword, as [`kw_name`].
fn kw_name_exec(line: &[char], kw: &str) -> (r: Option<String>)
    ensures
        match r {
            Some(n) => kw_name(line@, kw@) == Some(n@),
            None => kw_name(line@, kw@) is None,
        },
{
    let kwc = lit_chars(kw);
    let ll = line.len();
    match find_sub(line, &kwc) {
        Some(i) => {
            let rest = sub_chars(line, i + kwc.len(), ll);
            assert(rest@ =~= line@.skip(i + kw@.len()));
            let trimmed = trim_chars(&rest);
            let name = word_prefix_chars(&trimmed);
            if name.len() > 0 {
                Some(string_of(&name))
            } else {
                None
            }
        },
        None => None,
    }
}

/// The declared name in an export-like line, as [`spec_export_name`].
pub fn extract_export_name(line: &str) -> (r: Option<String>)
    ensures
        match r {
            Some(n) => spec_export_name(line@) == Some(n@),
            None => spec_export_name(line@) is None,
        },
{
    let lc = chars_of(line);
    extract_export_name_chars(&lc)
}

/// The declared name in an export-like line, over characters.
fn extract_export_name_chars(line: &[char]) -> (r: Option<String>)
    ensures
        match r {
            Some(n) => spec_export_name(line@) == Some(n@),
            None => spec_export_name(line@) is None,
        },
{
    if let Some(n) = kw_name_exec(line, "function") {
        return Some(n);
    }
    if let Some(n) = kw_name_exec(line, "class") {
        return Some(n);
    }
    if let Some(n) = kw_name_exec(line, "const") {
        return Some(n);
    }
    if let Some(n) = kw_name_exec(line, "let") {
        return Some(n);
    }
    if let Some(n) = kw_name_exec(line, "var") {
        return Some(n);
    }
    if let Some(n) = kw_name_exec(line, "interface") {
        return Some(n);
    }
    if let Some(n) = kw_name_exec(line, "type") {
        return Some(n);
    }
    None
}

/// The import specifier after `from` on an import line, quotes and a
/// semicolon stripped; `None` when the line is no such import.
pub open spec fn line_from_target(line: Seq<char>) -> Option<Seq<char>> {
    let t = trim_seq(line);
    if starts_with_seq(t, "import"@) && spec_find(t, "from"@) >= 0 {
        Some(
            trim_p(
                trim_seq(t.skip(spec_find(t, "from"@) + 4)),
                |c: char| quote_semi_char(c),
            ),
        )
    } else {
        None
    }
}

/// The quoted argument of a call-style `require(` on the line, quotes
/// stripped; `None` when the line has no complete such call.
pub open spec fn line_require_target(line: Seq<char>) -> Option<Seq<char>> {
    let t = trim_seq(line);
    let i = spec_find(t, "require("@);
    if i >= 0 {
        let rest = t.skip(i + 8);
        let e = spec_find(rest, ")"@);
        if e >= 0 {
            Some(trim_p(rest.take(e), |c: char| quote_char(c)))
        } else {
            None
        }
    } else {
        None
    }
}

/// The exported symbol declared on the line, when it is an export-like line
/// that names one: kind `Function` when the line mentions `function`, else
/// `Class` when it mentions `class`, else `Variable`. The declaration line
/// number is a placeholder.
pub open spec fn line_export_symbol(file: Seq<char>, line: Seq<char>) -> Option<SymbolView> {
    let t = trim_seq(line);
    if starts_with_seq(t, "export"@) && (contains_seq(t, "function"@) || contains_seq(t, "const"@)
        || contains_seq(t, "class"@)) {
        match spec_export_name(t) {
            Some(name) => Some(
                SymbolView {
                    name,
                    kind: if contains_seq(t, "function"@) {
                        SymbolKind::Function
                    } else if contains_seq(t, "class"@) {
                        SymbolKind::Class
                    } else {
                        SymbolKind::Variable
                    },
                    file,
                    line: 0,
                    exported: true,
                },
            ),
            None => None,
        }
    } else {
        None
    }
}

/// The line contributes the dependency key `d`: one of its import forms
/// names a specifier that resolves to `d`.
pub open spec fn line_dep_at(
    path: Seq<char>,
    line: Seq<char>,
    existing: Seq<Seq<char>>,
    d: Seq<char>,
) -> bool {
    ||| (line_from_target(line) is Some && d == spec_resolve(
        path,
        line_from_target(line)->0,
        existing,
    ))
    ||| (line_require_target(line) is Some && d == spec_resolve(
        path,
        line_require_target(line)->0,
        existing,
    ))
}

/// The set of dependency keys that the file's text declares.
pub open spec fn spec_file_deps(
    path: Seq<char>,
    content: Seq<char>,
    existing: Seq<Seq<char>>,
) -> Set<Seq<char>> {
    Set::new(
        |d: Seq<char>|
            exists|i: int|
                0 <= i < spec_lines(content).len() && line_dep_at(
                    path,
                    #[trigger] spec_lines(content)[i],
                    existing,
                    d,
                ),
    )
}

/// The exported symbols that the file's lines declare, in line order.
pub open spec fn spec_file_symbols(file: Seq<char>, lines: Seq<Seq<char>>) -> Seq<SymbolView>
    decreases lines.len(),
{
    if lines.len() == 0 {
        Seq::empty()
    } else {
        spec_file_symbols(file, lines.drop_last()) + (match line_export_symbol(
            file,
            lines.last(),
        ) {
            Some(s) => seq![s],
            None => Seq::empty(),
        })
    }
}

/// Analyze a single file's text for imports and exports. Pure: the caller
/// reads the file and supplies the list of paths that exist on disk. The
/// returned dependency list is duplicate-free and covers exactly the
/// dependency keys the text declares; the symbol list follows line order.
pub fn analyze_file(path: &str, content: &str, existing: &Vec<String>) -> (r: (
    Vec<String>,
    Vec<SymbolInfo>,
))
    ensures
        distinct_seq(r.0.deep_view()),
        forall|d: Seq<char>|
            #[trigger] r.0.deep_view().contains(d) <==> spec_file_deps(
                path@,
                content@,
                existing.deep_view(),
            ).contains(d),
        r.1.deep_view() == spec_file_symbols(path@, spec_lines(content@)),
{
    let pchars = chars_of(path);
    let cchars = chars_of(content);
    let lines = lines_of(&cchars);
    let ghost lv = lines.deep_view();
    let mut deps: Vec<String> = Vec::new();
    let mut syms: Vec<SymbolInfo> = Vec::new();
    let n = lines.len();
    proof {
        assert(deps.deep_view() =~= Seq::<Seq<char>>::empty());
        assert(syms.deep_view() =~= spec_file_symbols(path@, lv.take(0)));
    }
    let mut i: usize = 0;
    while i < n
        invariant
            lv == spec_lines(content@),
            lv == lines.deep_view(),
            n == lines@.len(),
            i <= n,
            pchars@ == path@,
            distinct_seq(deps.deep_view()),
            forall|d: Seq<char>|
                #[trigger] deps.deep_view().contains(d) <==> exists|j: int|
                    0 <= j < i && line_dep_at(path@, #[trigger] lv[j], existing.deep_view(), d),
            syms.deep_view() == spec_file_symbols(path@, lv.take(i as int)),
        decreases n - i,
    {
        let ghost line = lv[i as int];
        assert(lines.deep_view()[i as int] == lines@[i as int].deep_view());
        assert(lines@[i as int].deep_view() =~= lines@[i as int]@);
        let t = trim_chars(lines[i].as_slice());
        assert(t@ == trim_seq(line));
        let tl = t.len();

        // import { x } from 'module'
        let mut target1: Option<String> = None;
        if starts_with_sub(&t, &lit_chars("import")) {
            let fromc = lit_chars("from");
            if let Some(fi) = find_sub(&t, &fromc) {
                proof {
                    reveal_strlit("from");
                }
                let rest = sub_chars(&t, fi + 4, tl);
                assert(rest@ =~= t@.skip(fi + 4));
                let spec1 = trim_quote_semi(&trim_chars(&rest));
                target1 = Some(string_of(&spec1));
            }
        }
        proof {
            match &target1 {
                Some(m) => {
                    assert(line_from_target(line) == Some(m@));
                },
                None => {
                    assert(line_from_target(line) is None);
                },
            }
        }

        // require('module')
        let mut target2: Option<String> = None;
        let reqc = lit_chars("require(");
        if let Some(ri) = find_sub(&t, &reqc) {
            proof {
                reveal_strlit("require(");
            }
            let rest = sub_chars(&t, ri + 8, tl);
            assert(rest@ =~= t@.skip(ri + 8));
            if let Some(e) = find_sub(&rest, &lit_chars(")")) {
                let arg = sub_chars(&rest, 0, e);
                assert(arg@ =~= rest@.take(e as int));
                let spec2 = trim_quotes(&arg);
                target2 = Some(string_of(&spec2));
            }
        }
        proof {
            match &target2 {
                Some(m) => {
                    assert(line_require_target(line) == Some(m@));
                },
                None => {
                    assert(line_require_target(line) is None);
                },
            }
        }

        let ghost deps_pre = deps.deep_view();
        if let Some(m) = &target1 {
            let mc = chars_of(m.as_str());
            let resolved = string_of(&resolve_chars(&pchars, &mc, existing));
            assert(resolved@ == spec_resolve(
                path@,
                line_from_target(line)->0,
                existing.deep_view(),
            ));
            insert_unique(&mut deps, resolved);
        }
        let ghost deps_mid = deps.deep_view();
        proof {
            assert forall|d: Seq<char>| #[trigger]
                deps_mid.contains(d) <==> deps_pre.contains(d) || (line_from_target(line) is Some
                    && d == spec_resolve(
                    path@,
                    line_from_target(line)->0,
                    existing.deep_view(),
                )) by {}
        }
        if let Some(m) = &target2 {
            let mc = chars_of(m.as_str());
            let resolved = string_of(&resolve_chars(&pchars, &mc, existing));
            assert(resolved@ == spec_resolve(
                path@,
                line_require_target(line)->0,
                existing.deep_view(),
            ));
            insert_unique(&mut deps, resolved);
        }
        proof {
            let cur = deps.deep_view();
            assert forall|d: Seq<char>| #[trigger]
                cur.contains(d) <==> deps_mid.contains(d) || (line_require_target(line) is Some
                    && d == spec_resolve(
                    path@,
                    line_require_target(line)->0,
                    existing.deep_view(),
                )) by {}
            assert forall|d: Seq<char>| #[trigger]
                deps.deep_view().contains(d) <==> exists|j: int|
                    0 <= j < i + 1 && line_dep_at(
                        path@,
                        #[trigger] lv[j],
                        existing.deep_view(),
                        d,
                    ) by {
                if deps.deep_view().contains(d) {
                    if deps_pre.contains(d) {
                        let j = choose|j: int|
                            0 <= j < i && line_dep_at(
                                path@,
                                #[trigger] lv[j],
                                existing.deep_view(),
                                d,
                            );
                        assert(line_dep_at(path@, lv[j], existing.deep_view(), d));
                    } else {
                        assert(line_dep_at(path@, lv[i as int], existing.deep_view(), d));
                    }
                }
                if exists|j: int|
                    0 <= j < i + 1 && line_dep_at(path@, #[trigger] lv[j], existing.deep_view(), d) {
                    let j = choose|j: int|
                        0 <= j < i + 1 && line_dep_at(path@, #[trigger] lv[j], existing.deep_view(), d);
                    if j < i {
                        assert(deps_pre.contains(d));
                    }
                }
            }
        }

        // export function/class/const declarations
        let ghost syms_pre = syms.deep_view();
        if starts_with_sub(&t, &lit_chars("export")) {
            let has_fn = contains_sub(&t, &lit_chars("function"));
            let has_const = contains_sub(&t, &lit_chars("const"));
            let has_class = contains_sub(&t, &lit_chars("class"));
            if has_fn || has_const || has_class {
                if let Some(name) = extract_export_name_chars(&t) {
                    let kind = if has_fn {
                        SymbolKind::Function
                    } else if has_class {
                        SymbolKind::Class
                    } else {
                        SymbolKind::Variable
                    };
                    let s = SymbolInfo {
                        name,
                        kind,
                        file: string_of(&pchars),
                        line: 0,
                        exported: true,
                    };
                    assert(line_export_symbol(path@, line) == Some(s@));
                    syms.push(s);
                    assert(syms.deep_view() =~= syms_pre.push(
                        line_export_symbol(path@, line)->0,
                    ));
                }
            }
        }
        proof {
            assert(lv.take(i + 1).drop_last() =~= lv.take(i as int));
            assert(lv.take(i + 1).last() == line);
            match line_export_symbol(path@, line) {
                Some(s) => {
                    assert(syms.deep_view() =~= spec_file_symbols(path@, lv.take(i as int))
                        + seq![s]);
                },
                None => {
                    assert(syms.deep_view() =~= spec_file_symbols(path@, lv.take(i as int))
                        + Seq::<SymbolView>::empty());
                },
            }
        }
        i = i + 1;
    }
    proof {
        assert(lv.take(n as int) =~= lv);
        assert forall|d: Seq<char>|
            #[trigger] deps.deep_view().contains(d) <==> spec_file_deps(
                path@,
                content@,
                existing.deep_view(),
            ).contains(d) by {}
    }
    (deps, syms)
}

/// Add the string unless an equal one is present, keeping the list
/// duplicate-free.
fn insert_unique(v: &mut Vec<String>, x: String)
    requires
        distinct_seq(old(v).deep_view()),
    ensures
        distinct_seq(final(v).deep_view()),
        forall|d: Seq<char>|
            #[trigger] final(v).deep_view().contains(d) <==> old(v).deep_view().contains(d) || d
                == x@,
{
    if !crate::graph::vec_contains_string(v, &x) {
        let ghost before = v.deep_view();
        v.push(x);
        proof {
            assert(v.deep_view() =~= before.push(x@));
            assert forall|d: Seq<char>|
                #[trigger] v.deep_view().contains(d) <==> before.contains(d) || d == x@ by {
                let cur = v.deep_view();
                if cur.contains(d) {
                    let k = choose|k: int| 0 <= k < cur.len() && cur[k] == d;
                    if k < before.len() {
                        assert(before[k] == d);
                    }
                }
                if before.contains(d) {
                    let k = choose|k: int| 0 <= k < before.len() && before[k] == d;
                    assert(cur[k] == d);
                }
                if d == x@ {
                    assert(cur.last() == d);
                }
            }
            assert(distinct_seq(v.deep_view())) by {
                assert forall|a: int, b: int|
                    0 <= a < b < v.deep_view().len() implies v.deep_view()[a]
                    != v.deep_view()[b] by {
                    if b < before.len() {
                        assert(before[a] == v.deep_view()[a] && before[b] == v.deep_view()[b]);
                    } else {
                        assert(v.deep_view()[b] == x@);
                        assert(before[a] == v.deep_view()[a]);
                        if before[a] == x@ {
                            assert(before.contains(x@));
                        }
                    }
                }
            }
        }
    }
}

} // verus!
