//! Character-level text utilities shared by the extractor, the analyzer and
//! the search index: conversions between `str` and `Vec<char>`, substring
//! search, trimming, line splitting and tokenizing.
//!
//! All heavy processing works on `Vec<char>`, whose view is the same
//! `Seq<char>` as the view of the originating string.

use vstd::prelude::*;

verus! {

broadcast use vstd::string::group_string_axioms;

/// What `str::to_lowercase` returns for a string with these characters.
/// The result depends on the characters alone.
pub uninterp spec fn lower_of(s: Seq<char>) -> Seq<char>;

/// Whether `char::is_whitespace` holds of the character.
pub uninterp spec fn whitespace_char(c: char) -> bool;

/// Whether `char::is_alphanumeric` holds of the character.
pub uninterp spec fn alphanumeric_char(c: char) -> bool;

/// Relies on `str::to_lowercase`: Unicode lowercase mapping of each character,
/// a function of the input characters alone; the empty string stays empty.
#[verifier::external_body]
pub fn lowercase(s: &str) -> (r: String)
    ensures
        r@ == lower_of(s@),
        s@.len() == 0 ==> r@.len() == 0,
{
    s.to_lowercase()
}

/// Relies on `char::is_whitespace`: the `White_Space` Unicode property of the
/// character.
pub assume_specification[ char::is_whitespace ](c: char) -> (r: bool)
    ensures
        r == whitespace_char(c),
;

/// Relies on `char::is_alphanumeric`: the `Alphabetic` or numeric Unicode
/// property of the character.
pub assume_specification[ char::is_alphanumeric ](c: char) -> (r: bool)
    ensures
        r == alphanumeric_char(c),
;

/// Relies on `String::push`: appends exactly the given character.
#[verifier::external_body]
pub fn push_char(s: &mut String, c: char)
    ensures
        final(s)@ == old(s)@.push(c),
{
    s.push(c)
}

/// The characters of a string slice, as a vector with the same view.
pub fn chars_of(s: &str) -> (r: Vec<char>)
    ensures
        r@ == s@,
{
    let n = s.unicode_len();
    let mut r: Vec<char> = Vec::new();
    let mut i: usize = 0;
    while i < n
        invariant
            n == s@.len(),
            i <= n,
            r@ == s@.subrange(0, i as int),
        decreases n - i,
    {
        r.push(s.get_char(i));
        i = i + 1;
        assert(r@ =~= s@.subrange(0, i as int));
    }
    assert(r@ =~= s@);
    r
}

/// A string with exactly the given characters.
pub fn string_of(chars: &[char]) -> (r: String)
    ensures
        r@ == chars@,
{
    let mut r = String::new();
    let n = chars.len();
    let mut i: usize = 0;
    while i < n
        invariant
            n == chars@.len(),
            i <= n,
            r@ == chars@.subrange(0, i as int),
        decreases n - i,
    {
        push_char(&mut r, chars[i]);
        i = i + 1;
        assert(r@ =~= chars@.subrange(0, i as int));
    }
    assert(r@ =~= chars@);
    r
}

/// The needle occurs in the haystack starting at position `i`.
pub open spec fn match_at(hay: Seq<char>, needle: Seq<char>, i: int) -> bool {
    0 <= i && i + needle.len() <= hay.len() && hay.subrange(i, i + needle.len()) == needle
}

/// The needle occurs somewhere in the haystack.
pub open spec fn contains_seq(hay: Seq<char>, needle: Seq<char>) -> bool {
    exists|i: int| match_at(hay, needle, i)
}

/// The haystack begins with the needle.
pub open spec fn starts_with_seq(hay: Seq<char>, needle: Seq<char>) -> bool {
    match_at(hay, needle, 0)
}

/// Position of the first occurrence of `needle` in `hay`, if any.
pub fn find_sub(hay: &[char], needle: &[char]) -> (r: Option<usize>)
    ensures
        match r {
            Some(i) => match_at(hay@, needle@, i as int) && (forall|j: int|
                0 <= j < i ==> !match_at(hay@, needle@, j)) && spec_find(hay@, needle@) == i,
            None => !contains_seq(hay@, needle@) && spec_find(hay@, needle@) == -1,
        },
{
    let n = hay.len();
    let m = needle.len();
    if m > n {
        assert(forall|i: int| !match_at(hay@, needle@, i));
        proof {
            lemma_spec_find(hay@, needle@);
        }
        return None;
    }
    let mut i: usize = 0;
    while i <= n - m
        invariant
            m <= n,
            n == hay@.len(),
            m == needle@.len(),
            i <= n - m + 1,
            forall|j: int| 0 <= j < i ==> !match_at(hay@, needle@, j),
        decreases n - m + 1 - i,
    {
        let mut k: usize = 0;
        let mut eq = true;
        assert(hay@.subrange(i as int, i as int) =~= needle@.subrange(0, 0));
        while k < m
            invariant
                m <= n,
                n == hay@.len(),
                m == needle@.len(),
                i + m <= n,
                k <= m,
                eq == (hay@.subrange(i as int, i + k) == needle@.subrange(0, k as int)),
            decreases m - k,
        {
            let he = hay[i + k];
            let ne = needle[k];
            if he != ne {
                assert(hay@.subrange(i as int, i + m)[k as int] == he);
                assert(needle@.subrange(0, m as int)[k as int] == ne);
                assert(hay@.subrange(i as int, i + m) != needle@.subrange(0, m as int));
                eq = false;
                k = m;
            } else {
                assert(hay@.subrange(i as int, i + k + 1) =~= hay@.subrange(i as int, i + k).push(
                    he,
                ));
                assert(needle@.subrange(0, k as int + 1) =~= needle@.subrange(0, k as int).push(
                    ne,
                ));
                if eq {
                    assert(hay@.subrange(i as int, i + k + 1) == needle@.subrange(0, k + 1));
                } else {
                    assert(hay@.subrange(i as int, i + k + 1) != needle@.subrange(0, k + 1)) by {
                        if hay@.subrange(i as int, i + k + 1) == needle@.subrange(0, k + 1) {
                            assert(hay@.subrange(i as int, i + k) =~= hay@.subrange(
                                i as int,
                                i + k + 1,
                            ).subrange(0, k as int));
                            assert(needle@.subrange(0, k as int) =~= needle@.subrange(
                                0,
                                k + 1,
                            ).subrange(0, k as int));
                        }
                    }
                }
                k = k + 1;
            }
        }
        assert(needle@.subrange(0, m as int) =~= needle@);
        if eq {
            assert(match_at(hay@, needle@, i as int));
            proof {
                lemma_find_from_found(hay@, needle@, 0, i as int);
            }
            return Some(i);
        }
        assert(!match_at(hay@, needle@, i as int));
        i = i + 1;
    }
    assert(forall|j: int| i <= j ==> !match_at(hay@, needle@, j));
    proof {
        lemma_spec_find(hay@, needle@);
    }
    None
}

/// Index of the first occurrence of `needle` in `hay` at or after `from`,
/// or `-1` if there is none.
pub open spec fn find_from(hay: Seq<char>, needle: Seq<char>, from: int) -> int
    decreases hay.len() - from + 1,
{
    if from < 0 || from + needle.len() > hay.len() {
        -1
    } else if match_at(hay, needle, from) {
        from
    } else {
        find_from(hay, needle, from + 1)
    }
}

/// Index of the first occurrence of `needle` in `hay`, or `-1`, as `str::find`.
pub open spec fn spec_find(hay: Seq<char>, needle: Seq<char>) -> int {
    find_from(hay, needle, 0)
}

pub proof fn lemma_find_from_found(hay: Seq<char>, needle: Seq<char>, from: int, i: int)
    requires
        0 <= from <= i,
        match_at(hay, needle, i),
        forall|j: int| from <= j < i ==> !match_at(hay, needle, j),
    ensures
        find_from(hay, needle, from) == i,
    decreases i - from,
{
    if from < i {
        lemma_find_from_found(hay, needle, from + 1, i);
    }
}

pub proof fn lemma_find_from_none(hay: Seq<char>, needle: Seq<char>, from: int)
    requires
        0 <= from,
        forall|j: int| from <= j ==> !match_at(hay, needle, j),
    ensures
        find_from(hay, needle, from) == -1,
    decreases hay.len() - from + 1,
{
    if from + needle.len() <= hay.len() {
        lemma_find_from_none(hay, needle, from + 1);
    }
}

/// `spec_find` names the first match when there is one, and `-1` otherwise.
pub proof fn lemma_spec_find(hay: Seq<char>, needle: Seq<char>)
    ensures
        contains_seq(hay, needle) ==> {
            let i = spec_find(hay, needle);
            &&& 0 <= i
            &&& match_at(hay, needle, i)
            &&& forall|j: int| 0 <= j < i ==> !match_at(hay, needle, j)
        },
        !contains_seq(hay, needle) ==> spec_find(hay, needle) == -1,
{
    if contains_seq(hay, needle) {
        let w = choose|i: int| match_at(hay, needle, i);
        lemma_find_first_exists(hay, needle, w);
    } else {
        assert(forall|j: int| 0 <= j ==> !match_at(hay, needle, j));
        lemma_find_from_none(hay, needle, 0);
    }
}

proof fn lemma_find_first_exists(hay: Seq<char>, needle: Seq<char>, w: int)
    requires
        match_at(hay, needle, w),
    ensures
        ({
            let i = spec_find(hay, needle);
            &&& 0 <= i
            &&& match_at(hay, needle, i)
            &&& forall|j: int| 0 <= j < i ==> !match_at(hay, needle, j)
        }),
    decreases w,
{
    if exists|j: int| 0 <= j < w && match_at(hay, needle, j) {
        let v = choose|j: int| 0 <= j < w && match_at(hay, needle, j);
        lemma_find_first_exists(hay, needle, v);
    } else {
        lemma_find_from_found(hay, needle, 0, w);
    }
}

/// Whether `needle` occurs in `hay`.
pub fn contains_sub(hay: &[char], needle: &[char]) -> (r: bool)
    ensures
        r == contains_seq(hay@, needle@),
{
    find_sub(hay, needle).is_some()
}

/// Whether `hay` begins with `needle`.
pub fn starts_with_sub(hay: &[char], needle: &[char]) -> (r: bool)
    ensures
        r == starts_with_seq(hay@, needle@),
{
    let n = hay.len();
    let m = needle.len();
    if m > n {
        return false;
    }
    let mut k: usize = 0;
    while k < m
        invariant
            m <= n,
            n == hay@.len(),
            m == needle@.len(),
            k <= m,
            hay@.subrange(0, k as int) == needle@.subrange(0, k as int),
        decreases m - k,
    {
        let he = hay[k];
        let ne = needle[k];
        if he != ne {
            assert(hay@.subrange(0, k + 1)[k as int] == he);
            assert(needle@.subrange(0, k + 1)[k as int] == ne);
            assert(!starts_with_seq(hay@, needle@)) by {
                if match_at(hay@, needle@, 0) {
                    assert(hay@.subrange(0, m as int)[k as int] == needle@[k as int]);
                }
            }
            return false;
        }
        assert(hay@.subrange(0, k + 1) =~= hay@.subrange(0, k as int).push(he));
        assert(needle@.subrange(0, k + 1) =~= needle@.subrange(0, k as int).push(ne));
        k = k + 1;
    }
    assert(needle@.subrange(0, m as int) =~= needle@);
    true
}

/// The characters of a string literal, for matching against text.
pub fn lit_chars(s: &str) -> (r: Vec<char>)
    ensures
        r@ == s@,
{
    chars_of(s)
}

/// The characters with a leading run of characters satisfying `p` removed.
pub open spec fn trim_front_p(s: Seq<char>, p: spec_fn(char) -> bool) -> Seq<char>
    decreases s.len(),
{
    if s.len() > 0 && p(s[0]) {
        trim_front_p(s.drop_first(), p)
    } else {
        s
    }
}

/// The characters with a trailing run of characters satisfying `p` removed.
pub open spec fn trim_back_p(s: Seq<char>, p: spec_fn(char) -> bool) -> Seq<char>
    decreases s.len(),
{
    if s.len() > 0 && p(s.last()) {
        trim_back_p(s.drop_last(), p)
    } else {
        s
    }
}

/// The characters with runs satisfying `p` removed from both ends, as
/// `str::trim_matches`.
pub open spec fn trim_p(s: Seq<char>, p: spec_fn(char) -> bool) -> Seq<char> {
    trim_back_p(trim_front_p(s, p), p)
}

/// The characters with whitespace removed from both ends, as `str::trim`.
pub open spec fn trim_seq(s: Seq<char>) -> Seq<char> {
    trim_p(s, |c: char| whitespace_char(c))
}

pub proof fn lemma_trim_front_skip(s: Seq<char>, p: spec_fn(char) -> bool, i: int)
    requires
        0 <= i <= s.len(),
        forall|j: int| 0 <= j < i ==> p(s[j]),
        i == s.len() || !p(s[i]),
    ensures
        trim_front_p(s, p) == s.skip(i),
    decreases i,
{
    if i == 0 {
        assert(s.skip(0) =~= s);
    } else {
        let t = s.drop_first();
        assert(forall|j: int| 0 <= j < i - 1 ==> p(t[j]));
        lemma_trim_front_skip(t, p, i - 1);
        assert(t.skip(i - 1) =~= s.skip(i));
    }
}

pub proof fn lemma_trim_back_take(s: Seq<char>, p: spec_fn(char) -> bool, j: int)
    requires
        0 <= j <= s.len(),
        forall|k: int| j <= k < s.len() ==> p(s[k]),
        j == 0 || !p(s[j - 1]),
    ensures
        trim_back_p(s, p) == s.take(j),
    decreases s.len() - j,
{
    if j == s.len() {
        assert(s.take(j) =~= s);
    } else {
        let t = s.drop_last();
        assert(forall|k: int| j <= k < t.len() ==> p(t[k]));
        lemma_trim_back_take(t, p, j);
        assert(t.take(j) =~= s.take(j));
    }
}

/// The characters with whitespace removed from both ends.
pub fn trim_chars(s: &[char]) -> (r: Vec<char>)
    ensures
        r@ == trim_seq(s@),
{
    let ghost p = |c: char| whitespace_char(c);
    let n = s.len();
    let mut a: usize = 0;
    while a < n && s[a].is_whitespace()
        invariant
            n == s@.len(),
            a <= n,
            forall|j: int| 0 <= j < a ==> whitespace_char(s@[j]),
        decreases n - a,
    {
        a = a + 1;
    }
    proof {
        lemma_trim_front_skip(s@, p, a as int);
    }
    let mut b: usize = n;
    while b > a && s[b - 1].is_whitespace()
        invariant
            n == s@.len(),
            a <= b <= n,
            forall|k: int| b <= k < n ==> whitespace_char(s@[k]),
        decreases b,
    {
        b = b - 1;
    }
    proof {
        let t = s@.skip(a as int);
        assert(forall|k: int| b - a <= k < t.len() ==> p(t[k]));
        if b > a {
            assert(t[b - a - 1] == s@[b - 1]);
        }
        lemma_trim_back_take(t, p, b - a);
    }
    let mut r: Vec<char> = Vec::new();
    let mut i: usize = a;
    while i < b
        invariant
            n == s@.len(),
            a <= i <= b <= n,
            r@ == s@.subrange(a as int, i as int),
        decreases b - i,
    {
        r.push(s[i]);
        assert(r@ =~= s@.subrange(a as int, i + 1));
        i = i + 1;
    }
    assert(r@ =~= s@.skip(a as int).take(b - a));
    r
}

/// Whether the character is one that `str::trim_matches` strips around an
/// import specifier: a quote or a semicolon.
pub open spec fn quote_semi_char(c: char) -> bool {
    c == '\'' || c == '"' || c == ';'
}

/// Whether the character is a quote.
pub open spec fn quote_char(c: char) -> bool {
    c == '\'' || c == '"'
}

/// The characters with quotes and semicolons removed from both ends.
pub fn trim_quote_semi(s: &[char]) -> (r: Vec<char>)
    ensures
        r@ == trim_p(s@, |c: char| quote_semi_char(c)),
{
    let ghost p = |c: char| quote_semi_char(c);
    let n = s.len();
    let mut a: usize = 0;
    while a < n && (s[a] == '\'' || s[a] == '"' || s[a] == ';')
        invariant
            n == s@.len(),
            a <= n,
            p == (|c: char| quote_semi_char(c)),
            forall|j: int| 0 <= j < a ==> p(s@[j]),
        decreases n - a,
    {
        a = a + 1;
    }
    proof {
        lemma_trim_front_skip(s@, p, a as int);
    }
    let mut b: usize = n;
    while b > a && (s[b - 1] == '\'' || s[b - 1] == '"' || s[b - 1] == ';')
        invariant
            n == s@.len(),
            a <= b <= n,
            p == (|c: char| quote_semi_char(c)),
            forall|k: int| b <= k < n ==> p(s@[k]),
        decreases b,
    {
        b = b - 1;
    }
    proof {
        let t = s@.skip(a as int);
        assert(forall|k: int| b - a <= k < t.len() ==> p(t[k]));
        if b > a {
            assert(t[b - a - 1] == s@[b - 1]);
        }
        lemma_trim_back_take(t, p, b - a);
    }
    let mut r: Vec<char> = Vec::new();
    let mut i: usize = a;
    while i < b
        invariant
            n == s@.len(),
            a <= i <= b <= n,
            r@ == s@.subrange(a as int, i as int),
        decreases b - i,
    {
        r.push(s[i]);
        assert(r@ =~= s@.subrange(a as int, i + 1));
        i = i + 1;
    }
    assert(r@ =~= s@.skip(a as int).take(b - a));
    r
}

/// The characters with quotes removed from both ends.
pub fn trim_quotes(s: &[char]) -> (r: Vec<char>)
    ensures
        r@ == trim_p(s@, |c: char| quote_char(c)),
{
    let ghost p = |c: char| quote_char(c);
    let n = s.len();
    let mut a: usize = 0;
    while a < n && (s[a] == '\'' || s[a] == '"')
        invariant
            n == s@.len(),
            a <= n,
            p == (|c: char| quote_char(c)),
            forall|j: int| 0 <= j < a ==> p(s@[j]),
        decreases n - a,
    {
        a = a + 1;
    }
    proof {
        lemma_trim_front_skip(s@, p, a as int);
    }
    let mut b: usize = n;
    while b > a && (s[b - 1] == '\'' || s[b - 1] == '"')
        invariant
            n == s@.len(),
            a <= b <= n,
            p == (|c: char| quote_char(c)),
            forall|k: int| b <= k < n ==> p(s@[k]),
        decreases b,
    {
        b = b - 1;
    }
    proof {
        let t = s@.skip(a as int);
        assert(forall|k: int| b - a <= k < t.len() ==> p(t[k]));
        if b > a {
            assert(t[b - a - 1] == s@[b - 1]);
        }
        lemma_trim_back_take(t, p, b - a);
    }
    let mut r: Vec<char> = Vec::new();
    let mut i: usize = a;
    while i < b
        invariant
            n == s@.len(),
            a <= i <= b <= n,
            r@ == s@.subrange(a as int, i as int),
        decreases b - i,
    {
        r.push(s[i]);
        assert(r@ =~= s@.subrange(a as int, i + 1));
        i = i + 1;
    }
    assert(r@ =~= s@.skip(a as int).take(b - a));
    r
}

/// A line with one trailing carriage return removed, as `str::lines` does at
/// each line feed.
pub open spec fn strip_cr(l: Seq<char>) -> Seq<char> {
    if l.len() > 0 && l.last() == '\r' {
        l.drop_last()
    } else {
        l
    }
}

/// Helper for [`spec_lines`]: the lines of `s` when `cur` holds the part of
/// the current line read so far.
pub open spec fn lines_acc(s: Seq<char>, cur: Seq<char>) -> Seq<Seq<char>>
    decreases s.len(),
{
    if s.len() == 0 {
        if cur.len() > 0 {
            seq![cur]
        } else {
            Seq::empty()
        }
    } else if s[0] == '\n' {
        seq![strip_cr(cur)] + lines_acc(s.drop_first(), Seq::empty())
    } else {
        lines_acc(s.drop_first(), cur.push(s[0]))
    }
}

/// The lines of the text, split at line feeds, each line stripped of a
/// carriage return before the line feed; a final line terminator is optional.
/// This matches `str::lines`.
pub open spec fn spec_lines(s: Seq<char>) -> Seq<Seq<char>> {
    lines_acc(s, Seq::empty())
}

/// The lines of the text, as [`spec_lines`].
pub fn lines_of(s: &[char]) -> (r: Vec<Vec<char>>)
    ensures
        r.deep_view() == spec_lines(s@),
{
    let n = s.len();
    let mut out: Vec<Vec<char>> = Vec::new();
    let mut cur: Vec<char> = Vec::new();
    proof {
        assert(s@.skip(0) =~= s@);
        assert(out.deep_view() + lines_acc(s@, cur@) =~~= spec_lines(s@));
    }
    let mut i: usize = 0;
    while i < n
        invariant
            n == s@.len(),
            i <= n,
            spec_lines(s@) == out.deep_view() + lines_acc(s@.skip(i as int), cur@),
        decreases n - i,
    {
        let ghost prev_out = out.deep_view();
        let ghost prev_cur = cur@;
        assert(s@.skip(i as int).drop_first() =~= s@.skip(i + 1));
        assert(s@.skip(i as int)[0] == s@[i as int]);
        let c = s[i];
        if c == '\n' {
            if cur.len() > 0 && cur[cur.len() - 1] == '\r' {
                let _ = cur.pop();
                assert(cur@ =~= strip_cr(prev_cur));
            } else {
                assert(cur@ == strip_cr(prev_cur));
            }
            out.push(cur);
            cur = Vec::new();
            assert(out.deep_view() =~~= prev_out.push(strip_cr(prev_cur)));
            assert(out.deep_view() + lines_acc(s@.skip(i + 1), cur@) =~~= prev_out + (seq![
                strip_cr(prev_cur),
            ] + lines_acc(s@.skip(i + 1), Seq::empty())));
        } else {
            cur.push(c);
        }
        i = i + 1;
    }
    assert(s@.skip(n as int) =~= Seq::<char>::empty());
    if cur.len() > 0 {
        let ghost prev_out = out.deep_view();
        let ghost prev_cur = cur@;
        out.push(cur);
        assert(out.deep_view() =~~= prev_out.push(prev_cur));
        assert(out.deep_view() =~~= prev_out + lines_acc(Seq::empty(), prev_cur));
    } else {
        assert(out.deep_view() =~~= out.deep_view() + lines_acc(
            Seq::<char>::empty(),
            Seq::<char>::empty(),
        ));
    }
    out
}

/// Helper for [`spec_tokens`]: the maximal runs of characters satisfying `p`,
/// when `cur` holds the run read so far.
pub open spec fn tokens_acc(s: Seq<char>, p: spec_fn(char) -> bool, cur: Seq<char>) -> Seq<
    Seq<char>,
>
    decreases s.len(),
{
    if s.len() == 0 {
        if cur.len() > 0 {
            seq![cur]
        } else {
            Seq::empty()
        }
    } else if p(s[0]) {
        tokens_acc(s.drop_first(), p, cur.push(s[0]))
    } else {
        (if cur.len() > 0 {
            seq![cur]
        } else {
            Seq::empty()
        }) + tokens_acc(s.drop_first(), p, Seq::empty())
    }
}

/// The maximal nonempty runs of characters satisfying `p`, in order.
pub open spec fn spec_tokens(s: Seq<char>, p: spec_fn(char) -> bool) -> Seq<Seq<char>> {
    tokens_acc(s, p, Seq::empty())
}

/// The whitespace-separated words of the text, as `str::split_whitespace`.
pub open spec fn spec_words(s: Seq<char>) -> Seq<Seq<char>> {
    spec_tokens(s, |c: char| !whitespace_char(c))
}

/// A character that may stand in an identifier-like word: alphanumeric or an
/// underscore.
pub open spec fn word_char(c: char) -> bool {
    alphanumeric_char(c) || c == '_'
}

/// The whitespace-separated words of the text, as [`spec_words`].
pub fn split_whitespace_chars(s: &[char]) -> (r: Vec<Vec<char>>)
    ensures
        r.deep_view() == spec_words(s@),
{
    let ghost p = |c: char| !whitespace_char(c);
    let n = s.len();
    let mut out: Vec<Vec<char>> = Vec::new();
    let mut cur: Vec<char> = Vec::new();
    proof {
        assert(s@.skip(0) =~= s@);
        assert(out.deep_view() + tokens_acc(s@, p, cur@) =~~= spec_words(s@));
    }
    let mut i: usize = 0;
    while i < n
        invariant
            n == s@.len(),
            i <= n,
            p == (|c: char| !whitespace_char(c)),
            spec_words(s@) == out.deep_view() + tokens_acc(s@.skip(i as int), p, cur@),
        decreases n - i,
    {
        let ghost prev_out = out.deep_view();
        let ghost prev_cur = cur@;
        assert(s@.skip(i as int).drop_first() =~= s@.skip(i + 1));
        assert(s@.skip(i as int)[0] == s@[i as int]);
        let c = s[i];
        if !c.is_whitespace() {
            cur.push(c);
        } else {
            if cur.len() > 0 {
                out.push(cur);
                cur = Vec::new();
                assert(out.deep_view() =~~= prev_out.push(prev_cur));
                assert(out.deep_view() + tokens_acc(s@.skip(i + 1), p, cur@) =~~= prev_out + (seq![
                    prev_cur,
                ] + tokens_acc(s@.skip(i + 1), p, Seq::empty())));
            } else {
                assert(prev_cur =~= Seq::<char>::empty());
                assert(prev_out + tokens_acc(s@.skip(i + 1), p, prev_cur) =~~= prev_out + (seq![]
                    + tokens_acc(s@.skip(i + 1), p, Seq::empty())));
            }
        }
        i = i + 1;
    }
    assert(s@.skip(n as int) =~= Seq::<char>::empty());
    if cur.len() > 0 {
        let ghost prev_out = out.deep_view();
        let ghost prev_cur = cur@;
        out.push(cur);
        assert(out.deep_view() =~~= prev_out.push(prev_cur));
        assert(out.deep_view() =~~= prev_out + tokens_acc(Seq::empty(), p, prev_cur));
    } else {
        assert(out.deep_view() =~~= out.deep_view() + tokens_acc(
            Seq::<char>::empty(),
            p,
            Seq::<char>::empty(),
        ));
    }
    out
}

/// The identifier-like runs of the text: maximal runs of [`word_char`]s.
pub open spec fn spec_word_runs(s: Seq<char>) -> Seq<Seq<char>> {
    spec_tokens(s, |c: char| word_char(c))
}

/// The identifier-like runs of the text, as [`spec_word_runs`].
pub fn word_runs_chars(s: &[char]) -> (r: Vec<Vec<char>>)
    ensures
        r.deep_view() == spec_word_runs(s@),
{
    let ghost p = |c: char| word_char(c);
    let n = s.len();
    let mut out: Vec<Vec<char>> = Vec::new();
    let mut cur: Vec<char> = Vec::new();
    proof {
        assert(s@.skip(0) =~= s@);
        assert(out.deep_view() + tokens_acc(s@, p, cur@) =~~= spec_word_runs(s@));
    }
    let mut i: usize = 0;
    while i < n
        invariant
            n == s@.len(),
            i <= n,
            p == (|c: char| word_char(c)),
            spec_word_runs(s@) == out.deep_view() + tokens_acc(s@.skip(i as int), p, cur@),
        decreases n - i,
    {
        let ghost prev_out = out.deep_view();
        let ghost prev_cur = cur@;
        assert(s@.skip(i as int).drop_first() =~= s@.skip(i + 1));
        assert(s@.skip(i as int)[0] == s@[i as int]);
        let c = s[i];
        if c.is_alphanumeric() || c == '_' {
            cur.push(c);
        } else {
            if cur.len() > 0 {
                out.push(cur);
                cur = Vec::new();
                assert(out.deep_view() =~~= prev_out.push(prev_cur));
                assert(out.deep_view() + tokens_acc(s@.skip(i + 1), p, cur@) =~~= prev_out + (seq![
                    prev_cur,
                ] + tokens_acc(s@.skip(i + 1), p, Seq::empty())));
            } else {
                assert(prev_cur =~= Seq::<char>::empty());
                assert(prev_out + tokens_acc(s@.skip(i + 1), p, prev_cur) =~~= prev_out + (seq![]
                    + tokens_acc(s@.skip(i + 1), p, Seq::empty())));
            }
        }
        i = i + 1;
    }
    assert(s@.skip(n as int) =~= Seq::<char>::empty());
    if cur.len() > 0 {
        let ghost prev_out = out.deep_view();
        let ghost prev_cur = cur@;
        out.push(cur);
        assert(out.deep_view() =~~= prev_out.push(prev_cur));
        assert(out.deep_view() =~~= prev_out + tokens_acc(Seq::empty(), p, prev_cur));
    } else {
        assert(out.deep_view() =~~= out.deep_view() + tokens_acc(
            Seq::<char>::empty(),
            p,
            Seq::<char>::empty(),
        ));
    }
    out
}

/// The longest prefix of identifier-like characters, as
/// `take_while(|c| c.is_alphanumeric() || c == '_')`.
pub open spec fn word_prefix(s: Seq<char>) -> Seq<char>
    decreases s.len(),
{
    if s.len() > 0 && word_char(s[0]) {
        seq![s[0]] + word_prefix(s.drop_first())
    } else {
        Seq::empty()
    }
}

proof fn lemma_word_prefix_take(s: Seq<char>, i: int)
    requires
        0 <= i <= s.len(),
        forall|j: int| 0 <= j < i ==> word_char(s[j]),
        i == s.len() || !word_char(s[i]),
    ensures
        word_prefix(s) == s.take(i),
    decreases i,
{
    if i == 0 {
        assert(s.take(0) =~= Seq::<char>::empty());
    } else {
        let t = s.drop_first();
        assert(forall|j: int| 0 <= j < i - 1 ==> word_char(t[j]));
        lemma_word_prefix_take(t, i - 1);
        assert(seq![s[0]] + t.take(i - 1) =~= s.take(i));
    }
}

/// The longest identifier-like prefix, as [`word_prefix`].
pub fn word_prefix_chars(s: &[char]) -> (r: Vec<char>)
    ensures
        r@ == word_prefix(s@),
{
    let n = s.len();
    let mut i: usize = 0;
    while i < n && (s[i].is_alphanumeric() || s[i] == '_')
        invariant
            n == s@.len(),
            i <= n,
            forall|j: int| 0 <= j < i ==> word_char(s@[j]),
        decreases n - i,
    {
        i = i + 1;
    }
    proof {
        lemma_word_prefix_take(s@, i as int);
    }
    let mut r: Vec<char> = Vec::new();
    let mut k: usize = 0;
    while k < i
        invariant
            i <= n,
            n == s@.len(),
            k <= i,
            r@ == s@.subrange(0, k as int),
        decreases i - k,
    {
        r.push(s[k]);
        assert(r@ =~= s@.subrange(0, k + 1));
        k = k + 1;
    }
    assert(r@ =~= s@.take(i as int));
    r
}

/// Total number of characters over a sequence of lines.
pub open spec fn total_len(ls: Seq<Seq<char>>) -> int
    decreases ls.len(),
{
    if ls.len() == 0 {
        0
    } else {
        total_len(ls.drop_last()) + ls.last().len()
    }
}

proof fn lemma_total_len_prepend(x: Seq<char>, ls: Seq<Seq<char>>)
    ensures
        total_len(seq![x] + ls) == x.len() + total_len(ls),
    decreases ls.len(),
{
    let a = seq![x] + ls;
    if ls.len() == 0 {
        assert(a =~= seq![x]);
        assert(a.drop_last() =~= Seq::<Seq<char>>::empty());
        assert(a.last() == x);
        assert(total_len(a) == total_len(a.drop_last()) + a.last().len());
        assert(total_len(a.drop_last()) == 0);
    } else {
        assert(a.drop_last() =~= seq![x] + ls.drop_last());
        assert(a.last() == ls.last());
        lemma_total_len_prepend(x, ls.drop_last());
        assert(total_len(a) == total_len(a.drop_last()) + a.last().len());
        assert(total_len(ls) == total_len(ls.drop_last()) + ls.last().len());
    }
}

proof fn lemma_lines_acc_total(s: Seq<char>, cur: Seq<char>)
    ensures
        total_len(lines_acc(s, cur)) <= s.len() + cur.len(),
    decreases s.len(),
{
    if s.len() == 0 {
        if cur.len() > 0 {
            assert(lines_acc(s, cur) == seq![cur]);
            assert(seq![cur].drop_last() =~= Seq::<Seq<char>>::empty());
            assert(total_len(seq![cur]) == total_len(seq![cur].drop_last()) + cur.len());
            assert(total_len(seq![cur].drop_last()) == 0);
        } else {
            assert(total_len(lines_acc(s, cur)) == 0);
        }
    } else if s[0] == '\n' {
        assert(lines_acc(s, cur) == seq![strip_cr(cur)] + lines_acc(s.drop_first(), Seq::empty()));
        lemma_lines_acc_total(s.drop_first(), Seq::empty());
        lemma_total_len_prepend(strip_cr(cur), lines_acc(s.drop_first(), Seq::empty()));
        assert(strip_cr(cur).len() <= cur.len());
    } else {
        assert(lines_acc(s, cur) == lines_acc(s.drop_first(), cur.push(s[0])));
        lemma_lines_acc_total(s.drop_first(), cur.push(s[0]));
    }
}

/// The lines of a text together hold no more characters than the text.
pub proof fn lemma_lines_total(s: Seq<char>)
    ensures
        total_len(spec_lines(s)) <= s.len(),
{
    lemma_lines_acc_total(s, Seq::empty());
}

/// The decimal digit character for a value below ten.
pub open spec fn dec_digit(d: int) -> char {
    if d == 0 {
        '0'
    } else if d == 1 {
        '1'
    } else if d == 2 {
        '2'
    } else if d == 3 {
        '3'
    } else if d == 4 {
        '4'
    } else if d == 5 {
        '5'
    } else if d == 6 {
        '6'
    } else if d == 7 {
        '7'
    } else if d == 8 {
        '8'
    } else {
        '9'
    }
}

/// The decimal digits of a nonnegative number, most significant first.
pub open spec fn dec_chars(n: int) -> Seq<char>
    decreases n,
{
    if n < 10 {
        seq![dec_digit(n)]
    } else {
        dec_chars(n / 10).push(dec_digit(n % 10))
    }
}

/// The decimal rendering of a number, as formatting it would print it.
pub fn usize_dec_string(n: usize) -> (r: String)
    ensures
        r@ == dec_chars(n as int),
{
    let mut acc: Vec<char> = Vec::new();
    let mut m = n;
    while m >= 10
        invariant
            dec_chars(n as int) == dec_chars(m as int) + acc@.reverse(),
        decreases m,
    {
        let d = digit_char_of(m % 10);
        let ghost prev = acc@;
        acc.push(d);
        assert(acc@.reverse() =~= seq![d] + prev.reverse());
        assert(dec_chars(m as int) =~= dec_chars(m as int / 10).push(dec_digit(m as int % 10)));
        assert(dec_chars(m as int / 10) + acc@.reverse() =~= dec_chars(m as int) + prev.reverse());
        m = m / 10;
    }
    let d = digit_char_of(m);
    let ghost prev = acc@;
    acc.push(d);
    assert(acc@.reverse() =~= seq![d] + prev.reverse());
    assert(dec_chars(m as int) =~= seq![dec_digit(m as int)]);
    let len = acc.len();
    let mut r = String::new();
    let mut i: usize = len;
    while i > 0
        invariant
            len == acc@.len(),
            i <= len,
            r@ == acc@.reverse().take(len - i),
        decreases i,
    {
        i = i - 1;
        push_char(&mut r, acc[i]);
        assert(acc@.reverse()[len - 1 - i] == acc@[i as int]);
        assert(r@ =~= acc@.reverse().take(len - i));
    }
    assert(r@ =~= acc@.reverse());
    r
}

/// The decimal digit character of a value below ten.
pub fn digit_char_of(d: usize) -> (r: char)
    requires
        d < 10,
    ensures
        r == dec_digit(d as int),
{
    if d == 0 {
        '0'
    } else if d == 1 {
        '1'
    } else if d == 2 {
        '2'
    } else if d == 3 {
        '3'
    } else if d == 4 {
        '4'
    } else if d == 5 {
        '5'
    } else if d == 6 {
        '6'
    } else if d == 7 {
        '7'
    } else if d == 8 {
        '8'
    } else {
        '9'
    }
}

/// A copy of the characters between the two positions.
pub fn sub_chars(v: &[char], from: usize, to: usize) -> (r: Vec<char>)
    requires
        from <= to <= v@.len(),
    ensures
        r@ == v@.subrange(from as int, to as int),
{
    let mut r: Vec<char> = Vec::new();
    let mut i: usize = from;
    while i < to
        invariant
            from <= i <= to <= v@.len(),
            r@ == v@.subrange(from as int, i as int),
        decreases to - i,
    {
        r.push(v[i]);
        assert(r@ =~= v@.subrange(from as int, i + 1));
        i = i + 1;
    }
    r
}

/// The two character sequences, concatenated.
pub fn concat_chars(a: &[char], b: &[char]) -> (r: Vec<char>)
    ensures
        r@ == a@ + b@,
{
    let mut r: Vec<char> = Vec::new();
    r.extend_from_slice(a);
    assert(r@ =~= a@);
    r.extend_from_slice(b);
    assert(r@ =~= a@ + b@);
    r
}

/// Whether two character sequences are equal.
pub fn eq_chars(a: &[char], b: &[char]) -> (r: bool)
    ensures
        r == (a@ == b@),
{
    let n = a.len();
    if b.len() != n {
        return false;
    }
    let mut i: usize = 0;
    while i < n
        invariant
            n == a@.len(),
            n == b@.len(),
            i <= n,
            a@.subrange(0, i as int) == b@.subrange(0, i as int),
        decreases n - i,
    {
        if a[i] != b[i] {
            assert(a@ != b@) by {
                if a@ == b@ {
                    assert(a@[i as int] == b@[i as int]);
                }
            }
            return false;
        }
        assert(a@.subrange(0, i + 1) =~= a@.subrange(0, i as int).push(a@[i as int]));
        assert(b@.subrange(0, i + 1) =~= b@.subrange(0, i as int).push(b@[i as int]));
        i = i + 1;
    }
    assert(a@.subrange(0, n as int) =~= a@);
    assert(b@.subrange(0, n as int) =~= b@);
    true
}

/// Whether the characters equal the view of the given string slice.
pub fn chars_eq_str(v: &[char], s: &str) -> (r: bool)
    ensures
        r == (v@ == s@),
{
    let n = s.unicode_len();
    if v.len() != n {
        return false;
    }
    let mut i: usize = 0;
    while i < n
        invariant
            n == s@.len(),
            n == v@.len(),
            i <= n,
            v@.subrange(0, i as int) == s@.subrange(0, i as int),
        decreases n - i,
    {
        let c = s.get_char(i);
        if v[i] != c {
            assert(v@.subrange(0, i + 1)[i as int] == v@[i as int]);
            assert(v@ != s@) by {
                if v@ == s@ {
                    assert(v@[i as int] == s@[i as int]);
                }
            }
            return false;
        }
        assert(v@.subrange(0, i + 1) =~= v@.subrange(0, i as int).push(v@[i as int]));
        assert(s@.subrange(0, i + 1) =~= s@.subrange(0, i as int).push(s@[i as int]));
        i = i + 1;
    }
    assert(v@.subrange(0, n as int) =~= v@);
    assert(s@.subrange(0, n as int) =~= s@);
    true
}

} // verus!
