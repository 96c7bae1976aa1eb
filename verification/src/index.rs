//! The file index: per-file metadata with a content hash for change
//! detection, a word-based inverted index over file names, and fuzzy search
//! with relevance scoring.
//!
//! The caller walks the workspace and reads each file; indexing here is a
//! pure function of the handed-in entries.

use vstd::prelude::*;

use sha2::Digest;
use vstd::pervasive::VecAdditionalExecFns;

use crate::graph::{distinct_keys, has_key, in_list, AdjList};
use crate::paths::{spec_extension, spec_file_name, extension_chars, file_name_chars};
use crate::text::{
    chars_of,
    contains_seq,
    contains_sub,
    eq_chars,
    chars_eq_str,
    lines_of,
    lower_of,
    lowercase,
    spec_lines,
    spec_word_runs,
    spec_words,
    split_whitespace_chars,
    string_of,
    word_runs_chars,
};

verus! {

/// What the SHA-256 digest of these bytes reads as lowercase hex. The result
/// depends on the bytes alone.
pub uninterp spec fn sha256_hex_of(bytes: Seq<u8>) -> Seq<char>;

/// Relies on `sha2::Sha256` (the SHA-256 digest, a function of the input
/// bytes alone, 32 bytes long) and `hex::encode` (two lowercase hex digits
/// per byte, hence 64 characters).
#[verifier::external_body]
fn sha256_hex(bytes: &[u8]) -> (r: String)
    ensures
        r@ == sha256_hex_of(bytes@),
        r@.len() == 64,
{
    hex::encode(sha2::Sha256::digest(bytes))
}

/// Metadata the index keeps for one file.
pub struct FileInfo {
    pub path: String,
    pub name: String,
    pub extension: String,
    pub size: u64,
    pub lines: usize,
    pub hash: String,
    pub language: String,
}

/// The mathematical value of a [`FileInfo`].
pub ghost struct FileInfoView {
    pub path: Seq<char>,
    pub name: Seq<char>,
    pub extension: Seq<char>,
    pub size: u64,
    pub lines: nat,
    pub hash: Seq<char>,
    pub language: Seq<char>,
}

impl View for FileInfo {
    type V = FileInfoView;

    open spec fn view(&self) -> FileInfoView {
        FileInfoView {
            path: self.path@,
            name: self.name@,
            extension: self.extension@,
            size: self.size,
            lines: self.lines as nat,
            hash: self.hash@,
            language: self.language@,
        }
    }
}

impl DeepView for FileInfo {
    type V = FileInfoView;

    open spec fn deep_view(&self) -> FileInfoView {
        self.view()
    }
}

/// One candidate file for the index: its path, its size in bytes, and its
/// text (empty when the file could not be decoded).
pub struct IndexEntry {
    pub path: String,
    pub size: u64,
    pub content: String,
}

/// The mathematical value of an [`IndexEntry`].
pub ghost struct IndexEntryView {
    pub path: Seq<char>,
    pub size: u64,
    pub content: Seq<char>,
}

impl View for IndexEntry {
    type V = IndexEntryView;

    open spec fn view(&self) -> IndexEntryView {
        IndexEntryView { path: self.path@, size: self.size, content: self.content@ }
    }
}

impl DeepView for IndexEntry {
    type V = IndexEntryView;

    open spec fn deep_view(&self) -> IndexEntryView {
        self.view()
    }
}

/// The language label a file extension maps to; `Other` when unrecognized.
pub open spec fn spec_language(ext: Seq<char>) -> Seq<char> {
    if ext == "ts"@ || ext == "tsx"@ {
        "TypeScript"@
    } else if ext == "js"@ || ext == "jsx"@ {
        "JavaScript"@
    } else if ext == "rs"@ {
        "Rust"@
    } else if ext == "py"@ {
        "Python"@
    } else if ext == "go"@ {
        "Go"@
    } else if ext == "java"@ {
        "Java"@
    } else if ext == "c"@ || ext == "h"@ {
        "C"@
    } else if ext == "cpp"@ || ext == "cc"@ || ext == "hpp"@ {
        "C++"@
    } else if ext == "css"@ || ext == "scss"@ || ext == "less"@ {
        "CSS"@
    } else if ext == "html"@ || ext == "htm"@ {
        "HTML"@
    } else if ext == "json"@ {
        "JSON"@
    } else if ext == "yaml"@ || ext == "yml"@ {
        "YAML"@
    } else if ext == "md"@ {
        "Markdown"@
    } else if ext == "sql"@ {
        "SQL"@
    } else if ext == "sh"@ || ext == "bash"@ {
        "Shell"@
    } else {
        "Other"@
    }
}

/// The language label for an extension, as [`spec_language`].
pub fn detect_language(ext: &str) -> (r: String)
    ensures
        r@ == spec_language(ext@),
{
    let e = chars_of(ext);
    if chars_eq_str(&e, "ts") || chars_eq_str(&e, "tsx") {
        String::from_str("TypeScript")
    } else if chars_eq_str(&e, "js") || chars_eq_str(&e, "jsx") {
        String::from_str("JavaScript")
    } else if chars_eq_str(&e, "rs") {
        String::from_str("Rust")
    } else if chars_eq_str(&e, "py") {
        String::from_str("Python")
    } else if chars_eq_str(&e, "go") {
        String::from_str("Go")
    } else if chars_eq_str(&e, "java") {
        String::from_str("Java")
    } else if chars_eq_str(&e, "c") || chars_eq_str(&e, "h") {
        String::from_str("C")
    } else if chars_eq_str(&e, "cpp") || chars_eq_str(&e, "cc") || chars_eq_str(&e, "hpp") {
        String::from_str("C++")
    } else if chars_eq_str(&e, "css") || chars_eq_str(&e, "scss") || chars_eq_str(&e, "less") {
        String::from_str("CSS")
    } else if chars_eq_str(&e, "html") || chars_eq_str(&e, "htm") {
        String::from_str("HTML")
    } else if chars_eq_str(&e, "json") {
        String::from_str("JSON")
    } else if chars_eq_str(&e, "yaml") || chars_eq_str(&e, "yml") {
        String::from_str("YAML")
    } else if chars_eq_str(&e, "md") {
        String::from_str("Markdown")
    } else if chars_eq_str(&e, "sql") {
        String::from_str("SQL")
    } else if chars_eq_str(&e, "sh") || chars_eq_str(&e, "bash") {
        String::from_str("Shell")
    } else {
        String::from_str("Other")
    }
}

/// The searchable words of a file name: identifier-like runs of length at
/// least two.
pub open spec fn spec_extract_words(s: Seq<char>) -> Seq<Seq<char>> {
    spec_word_runs(s).filter(|t: Seq<char>| t.len() >= 2)
}

/// The searchable words of a text, as [`spec_extract_words`].
pub fn extract_words(text: &str) -> (r: Vec<String>)
    ensures
        r.deep_view() == spec_extract_words(text@),
{
    let ghost p = |t: Seq<char>| t.len() >= 2;
    let tc = chars_of(text);
    let runs = word_runs_chars(&tc);
    let n = runs.len();
    let mut r: Vec<String> = Vec::new();
    proof {
        reveal(Seq::filter);
        assert(r.deep_view() =~= runs.deep_view().take(0).filter(p));
    }
    let mut i: usize = 0;
    while i < n
        invariant
            n == runs@.len(),
            runs.deep_view() == spec_word_runs(text@),
            i <= n,
            p == (|t: Seq<char>| t.len() >= 2),
            r.deep_view() == runs.deep_view().take(i as int).filter(p),
        decreases n - i,
    {
        let ghost pre = runs.deep_view().take(i as int);
        proof {
            reveal(Seq::filter);
            assert(runs.deep_view().take(i + 1).drop_last() =~= pre);
            assert(runs.deep_view().take(i + 1).last() == runs.deep_view()[i as int]);
            assert(runs.deep_view()[i as int] == runs@[i as int]@);
        }
        if runs[i].len() >= 2 {
            let ghost prev = r.deep_view();
            let w = string_of(runs[i].as_slice());
            r.push(w);
            assert(r.deep_view() =~= prev.push(runs.deep_view()[i as int]));
        }
        i = i + 1;
    }
    assert(runs.deep_view().take(n as int) =~= runs.deep_view());
    r
}

/// The metadata record for one file: name, extension and language come from
/// the path, the line count and content hash from the text, the size from
/// the caller.
pub fn index_file(path: &String, size: u64, content: &str) -> (r: FileInfo)
    ensures
        r@ == spec_file_info(IndexEntryView { path: path@, size, content: content@ }),
{
    let pc = chars_of(path.as_str());
    let name = string_of(&file_name_chars(&pc));
    let ext = string_of(&extension_chars(&pc));
    let language = detect_language(ext.as_str());
    let cc = chars_of(content);
    let lns = lines_of(&cc);
    let lines = lns.len();
    let hash = sha256_hex(content.as_bytes());
    FileInfo { path: path.clone(), name, extension: ext, size, lines, hash, language }
}

/// The metadata record an index entry yields.
pub open spec fn spec_file_info(e: IndexEntryView) -> FileInfoView {
    FileInfoView {
        path: e.path,
        name: spec_file_name(e.path),
        extension: spec_extension(e.path),
        size: e.size,
        lines: spec_lines(e.content).len(),
        hash: sha256_hex_of(vstd::utf8::encode_utf8(e.content)),
        language: spec_language(spec_extension(e.path)),
    }
}

/// The records of all entries, in order.
pub open spec fn spec_files_of(es: Seq<IndexEntryView>) -> Seq<FileInfoView>
    decreases es.len(),
{
    if es.len() == 0 {
        Seq::empty()
    } else {
        spec_files_of(es.drop_last()).push(spec_file_info(es.last()))
    }
}

/// Total line count over all entries.
pub open spec fn spec_total_lines(es: Seq<IndexEntryView>) -> nat
    decreases es.len(),
{
    if es.len() == 0 {
        0
    } else {
        spec_total_lines(es.drop_last()) + spec_lines(es.last().content).len()
    }
}

/// No two entries share a path.
pub open spec fn distinct_entry_paths(es: Seq<IndexEntryView>) -> bool {
    forall|i: int, j: int|
        0 <= i < j < es.len() ==> (#[trigger] es[i]).path != (#[trigger] es[j]).path
}

/// The word maps to the path rightly: some indexed file has that path, and
/// its name has a searchable word whose lowercase form is the key.
pub open spec fn word_entry_ok(files: Seq<FileInfoView>, w: Seq<char>, p: Seq<char>) -> bool {
    exists|i: int|
        0 <= i < files.len() && (#[trigger] files[i]).path == p && (exists|t: Seq<char>|
            spec_extract_words(files[i].name).contains(t) && lower_of(t) == w)
}

/// File index for fast workspace search.
pub struct FileIndex {
    /// Metadata per indexed file, in indexing order.
    files: Vec<FileInfo>,
    /// Inverted index: lowercase word token to the files whose name holds it.
    content_index: AdjList,
    /// Total lines over the indexed files, saturating at the machine limit.
    total_lines: usize,
}

impl FileIndex {
    /// The records of the indexed files, in indexing order.
    pub closed spec fn spec_files(self) -> Seq<FileInfoView> {
        self.files.deep_view()
    }

    /// Well-formedness: paths unique, inverted-index keys unique and every
    /// word entry sound, and the line total the (saturating) sum over the
    /// indexed files.
    pub closed spec fn wf(self) -> bool {
        &&& forall|i: int, j: int|
            0 <= i < j < self.spec_files().len() ==> (#[trigger] self.spec_files()[i]).path != (
            #[trigger] self.spec_files()[j]).path
        &&& distinct_keys(self.content_index@)
        &&& forall|w: Seq<char>, p: Seq<char>|
            #[trigger] in_list(self.content_index@, w, p) ==> word_entry_ok(self.spec_files(), w, p)
    }

    /// An empty index.
    pub fn new() -> (r: Self)
        ensures
            r.wf(),
            r.spec_files() == Seq::<FileInfoView>::empty(),
            r.spec_total_lines_clamped() == 0,
    {
        let r = FileIndex { files: Vec::new(), content_index: Vec::new(), total_lines: 0 };
        assert(r.files.deep_view() =~= Seq::<FileInfoView>::empty());
        r
    }

    /// The stored total line count.
    pub closed spec fn spec_total_lines_clamped(self) -> nat {
        self.total_lines as nat
    }

    /// Number of indexed files.
    pub fn file_count(&self) -> (r: usize)
        ensures
            r == self.spec_files().len(),
    {
        self.files.len()
    }

    /// Total lines over the indexed files, as stored.
    pub fn total_lines(&self) -> (r: usize)
        ensures
            r == self.spec_total_lines_clamped(),
    {
        self.total_lines
    }

    /// Whether the file at this path must be re-analyzed: true when no
    /// record exists for the path, or when the stored hash differs from the
    /// new one.
    pub fn has_changed(&self, path: &str, new_hash: &str) -> (r: bool)
        requires
            self.wf(),
        ensures
            r == !(exists|i: int|
                0 <= i < self.spec_files().len() && (#[trigger] self.spec_files()[i]).path == path@
                    && self.spec_files()[i].hash == new_hash@),
    {
        let n = self.files.len();
        let mut i: usize = 0;
        while i < n
            invariant
                self.wf(),
                n == self.files@.len(),
                i <= n,
                forall|j: int|
                    0 <= j < i ==> !((#[trigger] self.files.deep_view()[j]).path == path@
                        && self.files.deep_view()[j].hash == new_hash@),
            decreases n - i,
        {
            assert(self.files.deep_view()[i as int] == self.files@[i as int]@);
            if chars_eq_str(&chars_of(self.files[i].path.as_str()), path) {
                let same = chars_eq_str(&chars_of(self.files[i].hash.as_str()), new_hash);
                if same {
                    assert((self.files.deep_view()[i as int]).path == path@
                        && self.files.deep_view()[i as int].hash == new_hash@);
                    return false;
                } else {
                    assert forall|j: int|
                        0 <= j < self.spec_files().len() implies !((#[trigger] self.spec_files()[j]).path
                        == path@ && self.spec_files()[j].hash == new_hash@) by {
                        if j != i {
                            if self.spec_files()[j].path == path@ {
                                assert(self.spec_files()[i as int].path == self.spec_files()[j].path);
                            }
                        }
                    }
                    return true;
                }
            }
            i = i + 1;
        }
        true
    }

    /// How many indexed files carry each language label.
    pub fn files_by_language(&self) -> (r: Vec<(String, usize)>)
        ensures
            forall|a: int, b: int|
                0 <= a < b < r@.len() ==> (#[trigger] r@[a]).0@ != (#[trigger] r@[b]).0@,
            forall|k: int|
                0 <= k < r@.len() ==> (#[trigger] r@[k]).1 == lang_count(
                    self.spec_files(),
                    r@[k].0@,
                ),
            covers_languages(self.spec_files(), r@),
            keys_are_languages(self.spec_files(), r@),
    {
        let ghost fs = self.spec_files();
        let n = self.files.len();
        let mut r: Vec<(String, usize)> = Vec::new();
        let mut i: usize = 0;
        while i < n
            invariant
                fs == self.spec_files(),
                n == self.files@.len(),
                i <= n,
                forall|a: int, b: int|
                    0 <= a < b < r@.len() ==> (#[trigger] r@[a]).0@ != (#[trigger] r@[b]).0@,
                forall|k: int|
                    0 <= k < r@.len() ==> (#[trigger] r@[k]).1 == lang_count(
                        fs.take(i as int),
                        r@[k].0@,
                    ),
                covers_languages(fs.take(i as int), r@),
                keys_are_languages(fs.take(i as int), r@),
            decreases n - i,
        {
            let ghost pre = r@;
            proof {
                assert(fs[i as int] == self.files@[i as int]@);
                lemma_lang_count_bound(fs, i as int);
            }
            let lang = &self.files[i].language;
            if let Some(k) = find_count_key(&r, lang) {
                let c = r[k].1;
                proof {
                    lemma_lang_count_step(fs, i as int, pre[k as int].0@);
                }
                let name_copy = r[k].0.clone();
                r.set(k, (name_copy, c + 1));
                proof {
                    assert forall|t: int|
                        0 <= t < r@.len() implies (#[trigger] r@[t]).0@ == pre[t].0@ by {}
                    assert forall|t: int|
                        0 <= t < r@.len() implies (#[trigger] r@[t]).1 == lang_count(
                        fs.take(i + 1),
                        r@[t].0@,
                    ) by {
                        lemma_lang_count_step(fs, i as int, r@[t].0@);
                        if t != k {
                            assert(pre[t].0@ != pre[k as int].0@);
                            assert(fs[i as int].language != r@[t].0@);
                        }
                    }
                    assert forall|j: int|
                        0 <= j < fs.take(i + 1).len() implies has_lang_key(
                        r@,
                        (#[trigger] fs.take(i + 1)[j]).language,
                    ) by {
                        assert(fs.take(i + 1)[j] == fs[j]);
                        if j < i {
                            assert(fs.take(i as int)[j] == fs[j]);
                            assert(has_lang_key(pre, fs[j].language));
                            let k2 = choose|k2: int|
                                0 <= k2 < pre.len() && (#[trigger] pre[k2]).0@ == fs[j].language;
                            assert(r@[k2].0@ == fs[j].language);
                        } else {
                            assert(r@[k as int].0@ == fs[i as int].language);
                        }
                    }
                    assert(covers_languages(fs.take(i + 1), r@));
                    assert forall|t: int|
                        0 <= t < r@.len() implies language_present(
                        fs.take(i + 1),
                        (#[trigger] r@[t]).0@,
                    ) by {
                        assert(language_present(fs.take(i as int), pre[t].0@));
                        let w = choose|w: int|
                            0 <= w < fs.take(i as int).len() && (#[trigger] fs.take(i as int)[w]).language
                                == pre[t].0@;
                        assert((fs.take(i + 1)[w]).language == r@[t].0@);
                    }
                }
            } else {
                r.push((lang.clone(), 1));
                proof {
                    assert forall|t: int|
                        0 <= t < pre.len() implies r@[t] == pre[t] by {}
                    assert(r@.last().0@ == fs[i as int].language);
                    assert forall|t: int|
                        0 <= t < r@.len() implies (#[trigger] r@[t]).1 == lang_count(
                        fs.take(i + 1),
                        r@[t].0@,
                    ) by {
                        lemma_lang_count_step(fs, i as int, r@[t].0@);
                        if t < pre.len() {
                            assert(pre[t].0@ != fs[i as int].language);
                        } else {
                            assert(r@[t].0@ == fs[i as int].language);
                            assert forall|j: int|
                                0 <= j < i implies (#[trigger] fs[j]).language != r@[t].0@ by {
                                assert(fs.take(i as int)[j] == fs[j]);
                                if fs[j].language == r@[t].0@ {
                                    assert(has_lang_key(pre, fs[j].language));
                                    let k2 = choose|k2: int|
                                        0 <= k2 < pre.len() && (#[trigger] pre[k2]).0@ == fs[j].language;
                                }
                            }
                            lemma_lang_count_none(fs, i as int, r@[t].0@);
                        }
                    }
                    assert forall|j: int|
                        0 <= j < fs.take(i + 1).len() implies has_lang_key(
                        r@,
                        (#[trigger] fs.take(i + 1)[j]).language,
                    ) by {
                        assert(fs.take(i + 1)[j] == fs[j]);
                        if j < i {
                            assert(fs.take(i as int)[j] == fs[j]);
                            assert(has_lang_key(pre, fs[j].language));
                            let k2 = choose|k2: int|
                                0 <= k2 < pre.len() && (#[trigger] pre[k2]).0@ == fs[j].language;
                            assert(r@[k2].0@ == fs[j].language);
                        } else {
                            assert(r@[r@.len() - 1].0@ == fs[i as int].language);
                        }
                    }
                    assert(covers_languages(fs.take(i + 1), r@));
                    assert forall|t: int|
                        0 <= t < r@.len() implies language_present(
                        fs.take(i + 1),
                        (#[trigger] r@[t]).0@,
                    ) by {
                        if t < pre.len() {
                            assert(language_present(fs.take(i as int), pre[t].0@));
                            let w = choose|w: int|
                                0 <= w < fs.take(i as int).len() && (#[trigger] fs.take(
                                    i as int,
                                )[w]).language == pre[t].0@;
                            assert((fs.take(i + 1)[w]).language == r@[t].0@);
                        } else {
                            assert((fs.take(i + 1)[i as int]).language == r@[t].0@);
                        }
                    }
                }
            }
            i = i + 1;
        }
        proof {
            assert(fs.take(n as int) =~= fs);
        }
        r
    }
}

/// The count list has an entry under this language label.
pub open spec fn has_lang_key(r: Seq<(String, usize)>, lang: Seq<char>) -> bool {
    exists|k: int| 0 <= k < r.len() && (#[trigger] r[k]).0@ == lang
}

/// Some record carries this language label.
pub open spec fn language_present(files: Seq<FileInfoView>, lang: Seq<char>) -> bool {
    exists|i: int| 0 <= i < files.len() && (#[trigger] files[i]).language == lang
}

/// Every key of the count list is the language of some record: the list
/// holds no entry for a language no indexed file carries.
pub open spec fn keys_are_languages(files: Seq<FileInfoView>, r: Seq<(String, usize)>) -> bool {
    forall|k: int| 0 <= k < r.len() ==> language_present(files, (#[trigger] r[k]).0@)
}

/// Every record's language appears among the keys of the count list.
pub open spec fn covers_languages(files: Seq<FileInfoView>, r: Seq<(String, usize)>) -> bool {
    forall|i: int| 0 <= i < files.len() ==> has_lang_key(r, (#[trigger] files[i]).language)
}

impl FileIndex {
    /// Index all candidate files, replacing any prior state wholesale. The
    /// caller walks the directory and reads each file; the entries carry
    /// unique paths, as a walk yields them.
    pub fn index_directory(&mut self, entries: &Vec<IndexEntry>)
        requires
            distinct_entry_paths(entries.deep_view()),
        ensures
            final(self).wf(),
            final(self).spec_files() == spec_files_of(entries.deep_view()),
            final(self).spec_total_lines_clamped() == (if spec_total_lines(entries.deep_view())
                <= usize::MAX as nat {
                spec_total_lines(entries.deep_view())
            } else {
                usize::MAX as nat
            }),
    {
        let ghost ev = entries.deep_view();
        *self = FileIndex::new();
        proof {
            assert(ev.take(0) =~= Seq::<IndexEntryView>::empty());
            assert(spec_files_of(ev.take(0)) =~= Seq::<FileInfoView>::empty());
            assert(spec_total_lines(ev.take(0)) == 0);
        }
        let n = entries.len();
        let mut i: usize = 0;
        while i < n
            invariant
                n == entries@.len(),
                i <= n,
                ev == entries.deep_view(),
                distinct_entry_paths(ev),
                self.files.deep_view() == spec_files_of(ev.take(i as int)),
                if spec_total_lines(ev.take(i as int)) <= usize::MAX as nat {
                    self.total_lines == spec_total_lines(ev.take(i as int))
                } else {
                    self.total_lines == usize::MAX
                },
                forall|a: int, b: int|
                    0 <= a < b < self.files.deep_view().len() ==> (
                    #[trigger] self.files.deep_view()[a]).path != (
                    #[trigger] self.files.deep_view()[b]).path,
                distinct_keys(self.content_index@),
                forall|w: Seq<char>, p: Seq<char>|
                    #[trigger] in_list(self.content_index@, w, p) ==> word_entry_ok(
                        self.files.deep_view(),
                        w,
                        p,
                    ),
            decreases n - i,
        {
            assert(entries.deep_view()[i as int] == entries@[i as int]@);
            let ghost e = ev[i as int];
            let info = index_file(&entries[i].path, entries[i].size, entries[i].content.as_str());
            assert(info@ == spec_file_info(e));

            let l = info.lines;
            proof {
                assert(ev.take(i + 1).drop_last() =~= ev.take(i as int));
                assert(ev.take(i + 1).last() == e);
            }
            if self.total_lines > usize::MAX - l {
                self.total_lines = usize::MAX;
            } else {
                self.total_lines = self.total_lines + l;
            }
            proof {
                assert(spec_total_lines(ev.take(i + 1)) == spec_total_lines(ev.take(i as int))
                    + spec_lines(e.content).len());
                assert(l == spec_lines(e.content).len());
                assert(if spec_total_lines(ev.take(i + 1)) <= usize::MAX as nat {
                    self.total_lines == spec_total_lines(ev.take(i + 1))
                } else {
                    self.total_lines == usize::MAX
                });
            }

            let words = extract_words(info.name.as_str());
            let path_copy = info.path.clone();
            let ghost fpre = self.files.deep_view();
            self.files.push(info);
            proof {
                assert(self.files.deep_view() =~= fpre.push(spec_file_info(e)));
                assert(spec_files_of(ev.take(i + 1)) =~= fpre.push(spec_file_info(e)));
                assert forall|a: int, b: int|
                    0 <= a < b < self.files.deep_view().len() implies (
                #[trigger] self.files.deep_view()[a]).path != (
                #[trigger] self.files.deep_view()[b]).path by {
                    if b < fpre.len() {
                        assert(self.files.deep_view()[a] == fpre[a]);
                        assert(self.files.deep_view()[b] == fpre[b]);
                    } else {
                        assert(self.files.deep_view()[b].path == e.path);
                        assert(self.files.deep_view()[a] == fpre[a]);
                        lemma_spec_files_of_len(ev.take(i as int));
                        lemma_spec_files_of_path(ev.take(i as int), a);
                        assert(fpre[a].path == ev.take(i as int)[a].path);
                        assert(ev[a].path != ev[i as int].path);
                    }
                }
                assert forall|w: Seq<char>, p: Seq<char>|
                    #[trigger] in_list(self.content_index@, w, p) implies word_entry_ok(
                    self.files.deep_view(),
                    w,
                    p,
                ) by {
                    if in_list(self.content_index@, w, p) {
                        assert(word_entry_ok(fpre, w, p));
                        let i0 = choose|i0: int|
                            0 <= i0 < fpre.len() && (#[trigger] fpre[i0]).path == p && (exists|
                                t: Seq<char>,
                            |
                                spec_extract_words(fpre[i0].name).contains(t) && lower_of(t) == w);
                        assert(self.files.deep_view()[i0] == fpre[i0]);
                        assert(word_entry_ok(self.files.deep_view(), w, p));
                    }
                }
            }
            let ghost fcur = self.files.deep_view();
            let ghost tl_now = self.total_lines;

            let wn = words.len();
            let mut k: usize = 0;
            while k < wn
                invariant
                    wn == words@.len(),
                    k <= wn,
                    self.total_lines == tl_now,
                    fcur == self.files.deep_view(),
                    fcur.len() > 0,
                    words.deep_view() == spec_extract_words(fcur.last().name),
                    path_copy@ == fcur.last().path,
                    distinct_keys(self.content_index@),
                    forall|w: Seq<char>, p: Seq<char>|
                        #[trigger] in_list(self.content_index@, w, p) ==> word_entry_ok(
                            self.files.deep_view(),
                            w,
                            p,
                        ),
                decreases wn - k,
            {
                assert(words.deep_view()[k as int] == words@[k as int]@);
                let ghost wv = words.deep_view()[k as int];
                let wl = lowercase(words[k].as_str());
                let ghost ci_pre = self.content_index@;
                adj_push(&mut self.content_index, wl, path_copy.clone());
                proof {
                    assert forall|w: Seq<char>, p: Seq<char>|
                        #[trigger] in_list(self.content_index@, w, p) implies word_entry_ok(
                        self.files.deep_view(),
                        w,
                        p,
                    ) by {
                        if in_list(self.content_index@, w, p) && !in_list(ci_pre, w, p) {
                            assert(w == lower_of(wv) && p == fcur.last().path);
                            assert(spec_extract_words(fcur.last().name).contains(wv));
                            assert((fcur[fcur.len() - 1]).path == p && (exists|t: Seq<char>|
                                spec_extract_words(fcur[fcur.len() - 1].name).contains(t)
                                    && lower_of(t) == w));
                        }
                    }
                }
                k = k + 1;
            }
            i = i + 1;
        }
        proof {
            assert(ev.take(n as int) =~= ev);
        }
    }
}

/// A record of the built sequence keeps its entry's path.
proof fn lemma_spec_files_of_path(es: Seq<IndexEntryView>, a: int)
    requires
        0 <= a < es.len(),
    ensures
        spec_files_of(es).len() == es.len(),
        spec_files_of(es)[a].path == es[a].path,
    decreases es.len(),
{
    lemma_spec_files_of_len(es);
    if a < es.len() - 1 {
        lemma_spec_files_of_path(es.drop_last(), a);
    }
}

/// The built sequence has one record per entry.
proof fn lemma_spec_files_of_len(es: Seq<IndexEntryView>)
    ensures
        spec_files_of(es).len() == es.len(),
    decreases es.len(),
{
    if es.len() > 0 {
        lemma_spec_files_of_len(es.drop_last());
    }
}

/// One match the search returns: a file, with the line and snippet fields
/// unused by name search, and its relevance score.
pub struct FileMatch {
    pub path: String,
    pub name: String,
    pub line: Option<usize>,
    pub snippet: Option<String>,
    pub score: u128,
}

/// The mathematical value of a [`FileMatch`].
pub ghost struct FileMatchView {
    pub path: Seq<char>,
    pub name: Seq<char>,
    pub line: Option<usize>,
    pub snippet: Option<Seq<char>>,
    pub score: int,
}

impl View for FileMatch {
    type V = FileMatchView;

    open spec fn view(&self) -> FileMatchView {
        FileMatchView {
            path: self.path@,
            name: self.name@,
            line: self.line,
            snippet: match self.snippet {
                Some(ref t) => Some(t@),
                None => None,
            },
            score: self.score as int,
        }
    }
}

impl DeepView for FileMatch {
    type V = FileMatchView;

    open spec fn deep_view(&self) -> FileMatchView {
        self.view()
    }
}

/// Ten points per query word found in the name, five per word found in the
/// path.
pub open spec fn word_bonus(words: Seq<Seq<char>>, nl: Seq<char>, pl: Seq<char>) -> int
    decreases words.len(),
{
    if words.len() == 0 {
        0
    } else {
        word_bonus(words.drop_last(), nl, pl) + (if contains_seq(nl, words.last()) {
            10int
        } else {
            0int
        }) + (if contains_seq(pl, words.last()) {
            5int
        } else {
            0int
        })
    }
}

/// The relevance of a file for a query, case-insensitive: an exact name
/// match scores 100; a name holding the query as a substring, 50; a path
/// holding it, 25; otherwise the per-word bonus accumulates.
pub open spec fn spec_score(q: Seq<char>, name: Seq<char>, path: Seq<char>) -> int {
    let ql = lower_of(q);
    let nl = lower_of(name);
    let pl = lower_of(path);
    if nl == ql {
        100
    } else if contains_seq(nl, ql) {
        50
    } else if contains_seq(pl, ql) {
        25
    } else {
        word_bonus(spec_words(ql), nl, pl)
    }
}

/// The match record of one file for a query.
pub open spec fn match_of(f: FileInfoView, q: Seq<char>) -> FileMatchView {
    FileMatchView {
        path: f.path,
        name: f.name,
        line: None,
        snippet: None,
        score: spec_score(q, f.name, f.path),
    }
}

/// The positively scoring matches of the files for a query, in file order.
pub open spec fn spec_matches(files: Seq<FileInfoView>, q: Seq<char>) -> Seq<FileMatchView>
    decreases files.len(),
{
    if files.len() == 0 {
        Seq::empty()
    } else {
        spec_matches(files.drop_last(), q) + (if spec_score(
            q,
            files.last().name,
            files.last().path,
        ) > 0 {
            seq![match_of(files.last(), q)]
        } else {
            Seq::empty()
        })
    }
}

/// Scores never increase along the sequence.
pub open spec fn sorted_desc(s: Seq<FileMatchView>) -> bool {
    forall|i: int, j: int| 0 <= i < j < s.len() ==> (#[trigger] s[i]).score >= (#[trigger] s[j]).score
}

proof fn lemma_word_bonus_bounds(words: Seq<Seq<char>>, nl: Seq<char>, pl: Seq<char>)
    ensures
        0 <= word_bonus(words, nl, pl) <= 15 * words.len(),
    decreases words.len(),
{
    if words.len() > 0 {
        lemma_word_bonus_bounds(words.drop_last(), nl, pl);
    }
}

/// The relevance of one file, over the lowercased query and its words.
fn score_file(ql: &[char], qwords: &Vec<Vec<char>>, name: &str, path: &str) -> (r: u128)
    requires
        qwords.deep_view() == spec_words(ql@),
    ensures
        r as int == (if lower_of(name@) == ql@ {
            100int
        } else if contains_seq(lower_of(name@), ql@) {
            50int
        } else if contains_seq(lower_of(path@), ql@) {
            25int
        } else {
            word_bonus(spec_words(ql@), lower_of(name@), lower_of(path@))
        }),
{
    let nls = lowercase(name);
    let nl = chars_of(nls.as_str());
    let pls = lowercase(path);
    let pl = chars_of(pls.as_str());
    if eq_chars(&nl, ql) {
        return 100;
    }
    if contains_sub(&nl, ql) {
        return 50;
    }
    if contains_sub(&pl, ql) {
        return 25;
    }
    let ghost wv = qwords.deep_view();
    let wn = qwords.len();
    let mut acc: u128 = 0;
    proof {
        assert(wv.take(0) =~= Seq::<Seq<char>>::empty());
    }
    let mut j: usize = 0;
    while j < wn
        invariant
            wn == qwords@.len(),
            j <= wn,
            wv == qwords.deep_view(),
            nl@ == lower_of(name@),
            pl@ == lower_of(path@),
            acc as int == word_bonus(wv.take(j as int), nl@, pl@),
            acc <= 15 * (j as u128),
        decreases wn - j,
    {
        assert(wv[j as int] == qwords@[j as int]@);
        proof {
            assert(wv.take(j + 1).drop_last() =~= wv.take(j as int));
            assert(wv.take(j + 1).last() == wv[j as int]);
        }
        let w = &qwords[j];
        if contains_sub(&nl, w) {
            acc = acc + 10;
        }
        if contains_sub(&pl, w) {
            acc = acc + 5;
        }
        j = j + 1;
    }
    proof {
        assert(wv.take(wn as int) =~= wv);
        lemma_word_bonus_bounds(wv, nl@, pl@);
    }
    acc
}

/// Stable insertion of a match into a descending-sorted list: the new
/// match goes after every match scoring at least as much.
pub open spec fn insert_desc(x: FileMatchView, s: Seq<FileMatchView>) -> Seq<FileMatchView>
    decreases s.len(),
{
    if s.len() == 0 {
        seq![x]
    } else if s[0].score >= x.score {
        seq![s[0]] + insert_desc(x, s.drop_first())
    } else {
        seq![x] + s
    }
}

/// The matches ordered by descending score, matches of equal score kept in
/// their input order: a stable insertion sort, processing the list left to
/// right.
pub open spec fn sort_desc(s: Seq<FileMatchView>) -> Seq<FileMatchView>
    decreases s.len(),
{
    if s.len() == 0 {
        Seq::empty()
    } else {
        insert_desc(s.last(), sort_desc(s.drop_last()))
    }
}

proof fn lemma_insert_desc(x: FileMatchView, s: Seq<FileMatchView>)
    requires
        sorted_desc(s),
    ensures
        insert_desc(x, s).len() == s.len() + 1,
        sorted_desc(insert_desc(x, s)),
        insert_desc(x, s).to_multiset() == s.to_multiset().insert(x),
        insert_desc(x, s)[0].score == (if s.len() > 0 && s[0].score >= x.score {
            s[0].score
        } else {
            x.score
        }),
    decreases s.len(),
{
    broadcast use vstd::seq_lib::group_to_multiset_ensures;
    broadcast use vstd::seq_lib::lemma_multiset_commutative;

    if s.len() == 0 {
        assert(seq![x] =~= Seq::<FileMatchView>::empty().push(x));
        assert(seq![x].to_multiset() =~= s.to_multiset().insert(x));
    } else if s[0].score >= x.score {
        let d = s.drop_first();
        assert(sorted_desc(d)) by {
            assert(forall|i: int, j: int|
                0 <= i < j < d.len() ==> (#[trigger] d[i]).score >= (#[trigger] d[j]).score);
        }
        lemma_insert_desc(x, d);
        let t = insert_desc(x, d);
        let r = seq![s[0]] + t;
        assert(r.len() == s.len() + 1);
        assert(sorted_desc(r)) by {
            assert forall|i: int, j: int|
                0 <= i < j < r.len() implies (#[trigger] r[i]).score >= (
            #[trigger] r[j]).score by {
                if i == 0 {
                    assert(r[0] == s[0]);
                    assert(r[j] == t[j - 1]);
                    assert(s[0].score >= t[0].score);
                } else {
                    assert(r[i] == t[i - 1] && r[j] == t[j - 1]);
                }
            }
        }
        assert(r.to_multiset() =~= s.to_multiset().insert(x)) by {
            assert(r.to_multiset() == seq![s[0]].to_multiset().add(t.to_multiset()));
            assert(seq![s[0]] + d =~= s);
            assert(s.to_multiset() == seq![s[0]].to_multiset().add(d.to_multiset()));
        }
    } else {
        let r = seq![x] + s;
        assert(sorted_desc(r)) by {
            assert forall|i: int, j: int|
                0 <= i < j < r.len() implies (#[trigger] r[i]).score >= (
            #[trigger] r[j]).score by {
                if i == 0 {
                    assert(r[0] == x);
                    assert(r[j] == s[j - 1]);
                    assert(s[0].score >= s[j - 1].score);
                } else {
                    assert(r[i] == s[i - 1] && r[j] == s[j - 1]);
                }
            }
        }
        assert(r.to_multiset() =~= s.to_multiset().insert(x)) by {
            assert(r.to_multiset() == seq![x].to_multiset().add(s.to_multiset()));
            assert(seq![x] =~= Seq::<FileMatchView>::empty().push(x));
        }
    }
}

/// The stable descending sort keeps the length, is sorted, and is a
/// permutation of its input.
pub proof fn lemma_sort_desc(s: Seq<FileMatchView>)
    ensures
        sort_desc(s).len() == s.len(),
        sorted_desc(sort_desc(s)),
        sort_desc(s).to_multiset() == s.to_multiset(),
    decreases s.len(),
{
    broadcast use vstd::seq_lib::group_to_multiset_ensures;

    if s.len() > 0 {
        lemma_sort_desc(s.drop_last());
        lemma_insert_desc(s.last(), sort_desc(s.drop_last()));
        assert(s.drop_last().push(s.last()) =~= s);
        assert(s.drop_last().push(s.last()).to_multiset() == s.drop_last().to_multiset().insert(
            s.last(),
        ));
    }
}

/// The stable insertion lands exactly where the strictly lower scores begin.
proof fn lemma_insert_desc_at(x: FileMatchView, s: Seq<FileMatchView>, k: int)
    requires
        sorted_desc(s),
        0 <= k <= s.len(),
        forall|t: int| 0 <= t < k ==> (#[trigger] s[t]).score >= x.score,
        k == s.len() || s[k].score < x.score,
    ensures
        insert_desc(x, s) == s.take(k) + seq![x] + s.skip(k),
    decreases s.len(),
{
    if s.len() == 0 {
        assert(s.take(0) + seq![x] + s.skip(0) =~= seq![x]);
    } else if k == 0 {
        assert(s.take(0) + seq![x] + s.skip(0) =~= seq![x] + s);
    } else {
        let d = s.drop_first();
        assert(sorted_desc(d)) by {
            assert(forall|i: int, j: int|
                0 <= i < j < d.len() ==> (#[trigger] d[i]).score >= (#[trigger] d[j]).score);
        }
        assert(forall|t: int| 0 <= t < k - 1 ==> (#[trigger] d[t]).score >= x.score);
        lemma_insert_desc_at(x, d, k - 1);
        assert(seq![s[0]] + (d.take(k - 1) + seq![x] + d.skip(k - 1)) =~= s.take(k) + seq![x]
            + s.skip(k));
    }
}

/// A copy of a match equal to the original.
fn copy_match(m: &FileMatch) -> (r: FileMatch)
    ensures
        r == *m,
{
    FileMatch {
        path: m.path.clone(),
        name: m.name.clone(),
        line: m.line,
        snippet: match &m.snippet {
            Some(t) => Some(t.clone()),
            None => None,
        },
        score: m.score,
    }
}

/// The given matches, in the order of [`sort_desc`]: by descending score,
/// ties kept in input order.
fn sort_matches(input: &Vec<FileMatch>) -> (r: Vec<FileMatch>)
    ensures
        r.deep_view() == sort_desc(input.deep_view()),
{
    let ghost iv = input.deep_view();
    let n = input.len();
    let mut out: Vec<FileMatch> = Vec::new();
    proof {
        assert(iv.take(0) =~= Seq::<FileMatchView>::empty());
        assert(out.deep_view() =~= sort_desc(iv.take(0)));
        lemma_sort_desc(iv.take(0));
    }
    let mut i: usize = 0;
    while i < n
        invariant
            n == input@.len(),
            i <= n,
            iv == input.deep_view(),
            out.deep_view() == sort_desc(iv.take(i as int)),
            sorted_desc(out.deep_view()),
        decreases n - i,
    {
        assert(input.deep_view()[i as int] == input@[i as int]@);
        let ghost xv = iv[i as int];
        let x = copy_match(&input[i]);
        assert(x@ == xv);
        let m = out.len();
        let mut k: usize = 0;
        while k < m && out[k].score >= x.score
            invariant
                m == out@.len(),
                k <= m,
                x@ == xv,
                forall|t: int| 0 <= t < k ==> (#[trigger] out.deep_view()[t]).score >= xv.score,
            decreases m - k,
        {
            assert(out.deep_view()[k as int].score == out@[k as int]@.score);
            k = k + 1;
        }
        let ghost opre = out.deep_view();
        proof {
            if k < m {
                assert(out@[k as int]@.score < xv.score);
            }
            lemma_insert_desc_at(xv, opre, k as int);
            lemma_insert_desc(xv, opre);
        }
        out.insert(k, x);
        proof {
            assert(out.deep_view() =~= opre.take(k as int) + seq![xv] + opre.skip(k as int)) by {
                assert forall|t: int|
                    0 <= t < out.deep_view().len() implies out.deep_view()[t] == (opre.take(
                    k as int,
                ) + seq![xv] + opre.skip(k as int))[t] by {
                    if t < k {
                        assert(out@[t] == out@.subrange(0, k as int)[t]);
                    }
                }
            }
            assert(out.deep_view() == insert_desc(xv, opre));
            assert(iv.take(i + 1).drop_last() =~= iv.take(i as int));
            assert(iv.take(i + 1).last() == xv);
        }
        i = i + 1;
    }
    proof {
        assert(iv.take(n as int) =~= iv);
    }
    out
}

impl FileIndex {
    /// Fuzzy name search, case-insensitive. An empty query matches nothing;
    /// the positively scoring files come back ordered by descending score,
    /// at most fifty of them, the cut falling on the lowest scores.
    pub fn search(&self, query: &str) -> (r: Vec<FileMatch>)
        ensures
            query@.len() == 0 ==> r@.len() == 0,
            r@.len() <= 50,
            sorted_desc(r.deep_view()),
            query@.len() > 0 ==> r.deep_view() == ({
                let full = sort_desc(spec_matches(self.spec_files(), query@));
                if full.len() <= 50 {
                    full
                } else {
                    full.take(50)
                }
            }),
    {
        let ghost fs = self.spec_files();
        if query.is_empty() {
            let r: Vec<FileMatch> = Vec::new();
            assert(r.deep_view() =~= Seq::<FileMatchView>::empty());
            return r;
        }
        let qls = lowercase(query);
        let ql = chars_of(qls.as_str());
        let qwords = split_whitespace_chars(&ql);
        let n = self.files.len();
        let mut matches: Vec<FileMatch> = Vec::new();
        proof {
            assert(fs.take(0) =~= Seq::<FileInfoView>::empty());
            assert(matches.deep_view() =~= spec_matches(fs.take(0), query@));
        }
        let mut i: usize = 0;
        while i < n
            invariant
                n == self.files@.len(),
                i <= n,
                fs == self.spec_files(),
                ql@ == lower_of(query@),
                qwords.deep_view() == spec_words(ql@),
                matches.deep_view() == spec_matches(fs.take(i as int), query@),
            decreases n - i,
        {
            assert(fs[i as int] == self.files@[i as int]@);
            proof {
                assert(fs.take(i + 1).drop_last() =~= fs.take(i as int));
                assert(fs.take(i + 1).last() == fs[i as int]);
            }
            let sc = score_file(
                &ql,
                &qwords,
                self.files[i].name.as_str(),
                self.files[i].path.as_str(),
            );
            assert(sc as int == spec_score(query@, fs[i as int].name, fs[i as int].path));
            if sc > 0 {
                let ghost pre = matches.deep_view();
                let fm = FileMatch {
                    path: self.files[i].path.clone(),
                    name: self.files[i].name.clone(),
                    line: None,
                    snippet: None,
                    score: sc,
                };
                assert(fm@ == match_of(fs[i as int], query@));
                matches.push(fm);
                assert(matches.deep_view() =~= pre.push(match_of(fs[i as int], query@)));
                assert(matches.deep_view() =~= spec_matches(fs.take(i as int), query@) + seq![
                    match_of(fs[i as int], query@),
                ]);
            } else {
                assert(matches.deep_view() =~= spec_matches(fs.take(i as int), query@)
                    + Seq::<FileMatchView>::empty());
            }
            i = i + 1;
        }
        proof {
            assert(fs.take(n as int) =~= fs);
        }
        let sorted = sort_matches(&matches);
        let ghost full = sort_desc(spec_matches(fs, query@));
        proof {
            lemma_sort_desc(spec_matches(fs, query@));
            assert(sorted.deep_view() == full);
        }
        let mut out = sorted;
        out.truncate(50);
        proof {
            if full.len() <= 50 {
                assert(out@ == sorted@ || out@ == sorted@.subrange(0, 50));
                assert(out.deep_view() =~= full);
            } else {
                assert(out.deep_view() =~= full.take(50));
            }
            assert(sorted_desc(out.deep_view())) by {
                assert forall|a: int, b: int|
                    0 <= a < b < out.deep_view().len() implies (
                #[trigger] out.deep_view()[a]).score >= (#[trigger] out.deep_view()[b]).score by {
                    assert(out.deep_view()[a] == full[a]);
                    assert(out.deep_view()[b] == full[b]);
                }
            }
        }
        out
    }
}

/// Add a value under a key of the inverted index, creating the entry when
/// the key is new.
fn adj_push(m: &mut AdjList, key: String, val: String)
    requires
        distinct_keys(old(m)@),
    ensures
        distinct_keys(final(m)@),
        forall|k: Seq<char>, v: Seq<char>|
            #[trigger] in_list(final(m)@, k, v) <==> in_list(old(m)@, k, v) || (k == key@ && v
                == val@),
{
    let ghost m0 = m@;
    match crate::graph::find_key(m, &key) {
        Some(j) => {
            let mut entry = m.remove(j);
            let ghost old_list = entry.1.deep_view();
            entry.1.push(val);
            proof {
                assert(entry.1.deep_view() =~= old_list.push(val@));
            }
            m.push(entry);
            proof {
                let m2 = m@;
                assert(m2.drop_last() =~= m0.remove(j as int));
                assert(m0.remove(j as int) =~= m0.take(j as int) + m0.skip(j + 1));
                assert(m2.last().0@ == key@);
                assert(m2.last().1.deep_view() =~= old_list.push(val@));
                assert(distinct_keys(m2)) by {
                    assert forall|a: int, b: int| 0 <= a < b < m2.len() implies (
                    #[trigger] m2[a]).0@ != (#[trigger] m2[b]).0@ by {
                        if b < m2.len() - 1 {
                        } else {
                            if m2[a].0@ == key@ {
                                if a < j {
                                    assert(m2[a] == m0[a]);
                                    assert(m0[a].0@ != m0[j as int].0@);
                                } else {
                                    assert(m2[a] == m0[a + 1]);
                                    assert(m0[j as int].0@ != m0[a + 1].0@);
                                }
                            }
                        }
                    }
                }
                assert forall|k: Seq<char>, v: Seq<char>|
                    #[trigger] in_list(m2, k, v) <==> in_list(m0, k, v) || (k == key@ && v
                        == val@) by {
                    if in_list(m2, k, v) {
                        let i = choose|i: int|
                            0 <= i < m2.len() && (#[trigger] m2[i]).0@ == k
                                && m2[i].1.deep_view().contains(v);
                        if i < m2.len() - 1 {
                            if i < j {
                                assert(m2[i] == m0[i]);
                                assert(in_list(m0, k, v));
                            } else {
                                assert(m2[i] == m0[i + 1]);
                                assert(in_list(m0, k, v));
                            }
                        } else {
                            assert(k == key@);
                            if v != val@ {
                                let w = choose|w: int|
                                    0 <= w < old_list.push(val@).len() && old_list.push(val@)[w]
                                        == v;
                                assert(old_list[w] == v);
                                assert((m0[j as int]).0@ == k
                                    && m0[j as int].1.deep_view().contains(v));
                                assert(in_list(m0, k, v));
                            }
                        }
                    }
                    if in_list(m0, k, v) {
                        let i = choose|i: int|
                            0 <= i < m0.len() && (#[trigger] m0[i]).0@ == k
                                && m0[i].1.deep_view().contains(v);
                        if i == j {
                            assert(m2.last().0@ == k);
                            assert(m2.last().1.deep_view().contains(v)) by {
                                let w = choose|w: int|
                                    0 <= w < old_list.len() && old_list[w] == v;
                                assert(old_list.push(val@)[w] == v);
                            }
                            assert(in_list(m2, k, v));
                        } else if i < j {
                            assert(m2[i] == m0[i]);
                            assert(in_list(m2, k, v));
                        } else {
                            assert(m2[i - 1] == m0[i]);
                            assert(in_list(m2, k, v));
                        }
                    }
                    if k == key@ && v == val@ {
                        assert(m2.last().1.deep_view().last() == val@);
                        assert(m2.last().0@ == k && m2.last().1.deep_view().contains(v));
                        assert(in_list(m2, k, v));
                    }
                }
            }
        },
        None => {
            let mut l: Vec<String> = Vec::new();
            l.push(val);
            proof {
                assert(l.deep_view() =~= Seq::<Seq<char>>::empty().push(val@));
            }
            m.push((key, l));
            proof {
                let m2 = m@;
                assert(m2.drop_last() =~= m0);
                assert(m2.last().1.deep_view() =~= Seq::<Seq<char>>::empty().push(val@));
                assert(distinct_keys(m2)) by {
                    assert forall|a: int, b: int| 0 <= a < b < m2.len() implies (
                    #[trigger] m2[a]).0@ != (#[trigger] m2[b]).0@ by {
                        if b < m2.len() - 1 {
                            assert(m2[a] == m0[a] && m2[b] == m0[b]);
                        } else {
                            assert(m2[a] == m0[a]);
                            if m2[a].0@ == m2[b].0@ {
                                assert(has_key(m0, m2[b].0@));
                            }
                        }
                    }
                }
                assert forall|k: Seq<char>, v: Seq<char>|
                    #[trigger] in_list(m2, k, v) <==> in_list(m0, k, v) || (k == key@ && v
                        == val@) by {
                    if in_list(m2, k, v) {
                        let i = choose|i: int|
                            0 <= i < m2.len() && (#[trigger] m2[i]).0@ == k
                                && m2[i].1.deep_view().contains(v);
                        if i < m2.len() - 1 {
                            assert(m2[i] == m0[i]);
                            assert(in_list(m0, k, v));
                        } else {
                            assert(k == key@);
                            assert(m2[i].1.deep_view().len() == 1);
                            assert(v == val@);
                        }
                    }
                    if in_list(m0, k, v) {
                        let i = choose|i: int|
                            0 <= i < m0.len() && (#[trigger] m0[i]).0@ == k
                                && m0[i].1.deep_view().contains(v);
                        assert(m2[i] == m0[i]);
                        assert(in_list(m2, k, v));
                    }
                    if k == key@ && v == val@ {
                        assert(m2.last().1.deep_view()[0] == val@);
                        assert(m2.last().0@ == k && m2.last().1.deep_view().contains(v));
                        assert(in_list(m2, k, v));
                    }
                }
            }
        },
    }
}

/// How many of the records carry the given language label.
pub open spec fn lang_count(files: Seq<FileInfoView>, lang: Seq<char>) -> nat {
    files.filter(|f: FileInfoView| f.language == lang).len()
}

/// One more record raises the count of exactly its own language.
proof fn lemma_lang_count_step(files: Seq<FileInfoView>, i: int, lang: Seq<char>)
    requires
        0 <= i < files.len(),
    ensures
        lang_count(files.take(i + 1), lang) == lang_count(files.take(i), lang) + (
        if files[i].language == lang {
            1nat
        } else {
            0nat
        }),
{
    reveal(Seq::filter);
    let p = |f: FileInfoView| f.language == lang;
    assert(files.take(i + 1).drop_last() =~= files.take(i));
    assert(files.take(i + 1).last() == files[i]);
}

/// A language no earlier record carries counts zero among them.
proof fn lemma_lang_count_none(files: Seq<FileInfoView>, i: int, lang: Seq<char>)
    requires
        0 <= i <= files.len(),
        forall|j: int| 0 <= j < i ==> (#[trigger] files[j]).language != lang,
    ensures
        lang_count(files.take(i), lang) == 0,
    decreases i,
{
    reveal(Seq::filter);
    if i > 0 {
        assert(files.take(i).drop_last() =~= files.take(i - 1));
        lemma_lang_count_none(files, i - 1, lang);
    }
}

/// The count over a prefix never exceeds its length.
proof fn lemma_lang_count_bound(files: Seq<FileInfoView>, i: int)
    requires
        0 <= i <= files.len(),
    ensures
        forall|lang: Seq<char>| #[trigger] lang_count(files.take(i), lang) <= i,
{
    assert forall|lang: Seq<char>| #[trigger] lang_count(files.take(i), lang) <= i by {
        files.take(i).lemma_filter_len(|f: FileInfoView| f.language == lang);
    }
}

/// Position of the language entry with the given key, if any.
fn find_count_key(m: &Vec<(String, usize)>, k: &String) -> (r: Option<usize>)
    ensures
        match r {
            Some(i) => i < m@.len() && m@[i as int].0@ == k@,
            None => forall|t: int| 0 <= t < m@.len() ==> (#[trigger] m@[t]).0@ != k@,
        },
{
    let n = m.len();
    let mut i: usize = 0;
    while i < n
        invariant
            n == m@.len(),
            i <= n,
            forall|j: int| 0 <= j < i ==> (#[trigger] m@[j]).0@ != k@,
        decreases n - i,
    {
        if m[i].0 == *k {
            return Some(i);
        }
        i = i + 1;
    }
    None
}


} // verus!
