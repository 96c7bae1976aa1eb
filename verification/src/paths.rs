//! A plain string model of workspace paths: components are separated by `/`,
//! a file's name is the part after the last separator, and its extension is
//! the part of the name after the last dot (empty when the name has no dot,
//! or only a leading one).

use vstd::prelude::*;

verus! {

/// The path up to (not including) its last `/`, or empty when it has none.
pub open spec fn spec_parent(p: Seq<char>) -> Seq<char>
    decreases p.len(),
{
    if p.len() == 0 {
        p
    } else if p.last() == '/' {
        p.drop_last()
    } else {
        spec_parent(p.drop_last())
    }
}

/// The part of the path after its last `/`, or the whole path.
pub open spec fn spec_file_name(p: Seq<char>) -> Seq<char>
    decreases p.len(),
{
    if p.len() == 0 {
        p
    } else if p.last() == '/' {
        Seq::empty()
    } else {
        spec_file_name(p.drop_last()).push(p.last())
    }
}

/// Index of the last `.` in the name, or `-1` when it has none.
pub open spec fn last_dot(name: Seq<char>) -> int
    decreases name.len(),
{
    if name.len() == 0 {
        -1
    } else if name.last() == '.' {
        name.len() - 1
    } else {
        last_dot(name.drop_last())
    }
}

/// The extension of the path's file name: the part of the name after its last
/// `.`; empty when the name has no dot or only a leading one.
pub open spec fn spec_extension(p: Seq<char>) -> Seq<char> {
    let name = spec_file_name(p);
    let k = last_dot(name);
    if k <= 0 {
        Seq::empty()
    } else {
        name.skip(k + 1)
    }
}

/// The specifier with its leading current-directory markers (`./`) removed:
/// the normalization that makes a joined relative path line up with the
/// paths a directory walk yields.
pub open spec fn strip_dot_slash(s: Seq<char>) -> Seq<char>
    decreases s.len(),
{
    if s.len() >= 2 && s[0] == '.' && s[1] == '/' {
        strip_dot_slash(s.skip(2))
    } else {
        s
    }
}

/// The specifier without leading `./` markers, as [`strip_dot_slash`].
pub fn strip_dot_slash_chars(s: &[char]) -> (r: Vec<char>)
    ensures
        r@ == strip_dot_slash(s@),
{
    let n = s.len();
    let mut i: usize = 0;
    proof {
        assert(s@.skip(0) =~= s@);
    }
    while n - i >= 2 && s[i] == '.' && s[i + 1] == '/'
        invariant
            n == s@.len(),
            i <= n,
            strip_dot_slash(s@) == strip_dot_slash(s@.skip(i as int)),
        decreases n - i,
    {
        assert(s@.skip(i as int).skip(2) =~= s@.skip(i + 2));
        assert(s@.skip(i as int)[0] == s@[i as int]);
        assert(s@.skip(i as int)[1] == s@[i + 1]);
        i = i + 2;
    }
    proof {
        let t = s@.skip(i as int);
        if t.len() >= 2 {
            assert(t[0] == s@[i as int]);
            assert(t[1] == s@[i + 1]);
        }
        assert(strip_dot_slash(t) == t);
    }
    let r = sub_slice(s, i);
    r
}

/// A copy of the characters from the given position on.
fn sub_slice(s: &[char], from: usize) -> (r: Vec<char>)
    requires
        from <= s@.len(),
    ensures
        r@ == s@.skip(from as int),
{
    let n = s.len();
    let mut r: Vec<char> = Vec::new();
    let mut i: usize = from;
    while i < n
        invariant
            from <= i <= n,
            n == s@.len(),
            r@ == s@.subrange(from as int, i as int),
        decreases n - i,
    {
        r.push(s[i]);
        assert(r@ =~= s@.subrange(from as int, i + 1));
        i = i + 1;
    }
    assert(r@ =~= s@.skip(from as int));
    r
}

/// A path under a parent directory: the two joined with a `/`, or the child
/// alone when the parent is empty.
pub open spec fn spec_join(parent: Seq<char>, child: Seq<char>) -> Seq<char> {
    if parent.len() == 0 {
        child
    } else {
        parent + seq!['/'] + child
    }
}

proof fn lemma_parent_at(p: Seq<char>, k: int)
    requires
        0 <= k < p.len(),
        p[k] == '/',
        forall|j: int| k < j < p.len() ==> p[j] != '/',
    ensures
        spec_parent(p) == p.take(k),
    decreases p.len(),
{
    if k == p.len() - 1 {
        assert(p.drop_last() =~= p.take(k));
    } else {
        let t = p.drop_last();
        assert(forall|j: int| k < j < t.len() ==> t[j] != '/');
        lemma_parent_at(t, k);
        assert(t.take(k) =~= p.take(k));
    }
}

proof fn lemma_parent_none(p: Seq<char>)
    requires
        forall|j: int| 0 <= j < p.len() ==> p[j] != '/',
    ensures
        spec_parent(p) == Seq::<char>::empty(),
    decreases p.len(),
{
    if p.len() > 0 {
        let t = p.drop_last();
        assert(forall|j: int| 0 <= j < t.len() ==> t[j] != '/');
        lemma_parent_none(t);
    } else {
        assert(p =~= Seq::<char>::empty());
    }
}

proof fn lemma_file_name_at(p: Seq<char>, k: int)
    requires
        0 <= k < p.len(),
        p[k] == '/',
        forall|j: int| k < j < p.len() ==> p[j] != '/',
    ensures
        spec_file_name(p) == p.skip(k + 1),
    decreases p.len(),
{
    if k == p.len() - 1 {
        assert(p.skip(k + 1) =~= Seq::<char>::empty());
    } else {
        let t = p.drop_last();
        assert(forall|j: int| k < j < t.len() ==> t[j] != '/');
        lemma_file_name_at(t, k);
        assert(t.skip(k + 1).push(p.last()) =~= p.skip(k + 1));
    }
}

proof fn lemma_file_name_none(p: Seq<char>)
    requires
        forall|j: int| 0 <= j < p.len() ==> p[j] != '/',
    ensures
        spec_file_name(p) == p,
    decreases p.len(),
{
    if p.len() > 0 {
        let t = p.drop_last();
        assert(forall|j: int| 0 <= j < t.len() ==> t[j] != '/');
        lemma_file_name_none(t);
        assert(t.push(p.last()) =~= p);
    }
}

proof fn lemma_last_dot_at(name: Seq<char>, k: int)
    requires
        0 <= k < name.len(),
        name[k] == '.',
        forall|j: int| k < j < name.len() ==> name[j] != '.',
    ensures
        last_dot(name) == k,
    decreases name.len(),
{
    if k < name.len() - 1 {
        let t = name.drop_last();
        assert(forall|j: int| k < j < t.len() ==> t[j] != '.');
        lemma_last_dot_at(t, k);
    }
}

proof fn lemma_last_dot_none(name: Seq<char>)
    requires
        forall|j: int| 0 <= j < name.len() ==> name[j] != '.',
    ensures
        last_dot(name) == -1,
    decreases name.len(),
{
    if name.len() > 0 {
        let t = name.drop_last();
        assert(forall|j: int| 0 <= j < t.len() ==> t[j] != '.');
        lemma_last_dot_none(t);
    }
}

/// Index just after the last `/`, or `0` when the path has none.
fn name_start(p: &[char]) -> (r: usize)
    ensures
        r <= p@.len(),
        spec_file_name(p@) == p@.skip(r as int),
        spec_parent(p@) == (if r > 0 {
            p@.take(r - 1)
        } else {
            Seq::<char>::empty()
        }),
{
    let n = p.len();
    let mut b: usize = n;
    while b > 0 && p[b - 1] != '/'
        invariant
            n == p@.len(),
            b <= n,
            forall|j: int| b <= j < n ==> p@[j] != '/',
        decreases b,
    {
        b = b - 1;
    }
    proof {
        if b > 0 {
            lemma_file_name_at(p@, b - 1);
            lemma_parent_at(p@, b - 1);
        } else {
            lemma_file_name_none(p@);
            lemma_parent_none(p@);
            assert(p@.skip(0) =~= p@);
        }
    }
    b
}

/// The part of the path after its last `/`, as [`spec_file_name`].
pub fn file_name_chars(p: &[char]) -> (r: Vec<char>)
    ensures
        r@ == spec_file_name(p@),
{
    let n = p.len();
    let b = name_start(p);
    let mut r: Vec<char> = Vec::new();
    let mut i: usize = b;
    while i < n
        invariant
            n == p@.len(),
            b <= i <= n,
            r@ == p@.subrange(b as int, i as int),
        decreases n - i,
    {
        r.push(p[i]);
        assert(r@ =~= p@.subrange(b as int, i + 1));
        i = i + 1;
    }
    assert(r@ =~= p@.skip(b as int));
    r
}

/// The path up to its last `/`, as [`spec_parent`].
pub fn parent_chars(p: &[char]) -> (r: Vec<char>)
    ensures
        r@ == spec_parent(p@),
{
    let b = name_start(p);
    let mut r: Vec<char> = Vec::new();
    if b == 0 {
        return r;
    }
    let e = b - 1;
    let mut i: usize = 0;
    while i < e
        invariant
            e < p@.len(),
            i <= e,
            r@ == p@.subrange(0, i as int),
        decreases e - i,
    {
        r.push(p[i]);
        assert(r@ =~= p@.subrange(0, i + 1));
        i = i + 1;
    }
    assert(r@ =~= p@.take(e as int));
    r
}

/// The extension of the path's file name, as [`spec_extension`].
pub fn extension_chars(p: &[char]) -> (r: Vec<char>)
    ensures
        r@ == spec_extension(p@),
{
    let name = file_name_chars(p);
    let n = name.len();
    let mut b: usize = n;
    while b > 0 && name[b - 1] != '.'
        invariant
            n == name@.len(),
            b <= n,
            forall|j: int| b <= j < n ==> name@[j] != '.',
        decreases b,
    {
        b = b - 1;
    }
    proof {
        if b > 0 {
            lemma_last_dot_at(name@, b - 1);
        } else {
            lemma_last_dot_none(name@);
        }
    }
    let mut r: Vec<char> = Vec::new();
    if b <= 1 {
        assert(last_dot(name@) <= 0);
        return r;
    }
    let mut i: usize = b;
    while i < n
        invariant
            n == name@.len(),
            b <= i <= n,
            r@ == name@.subrange(b as int, i as int),
        decreases n - i,
    {
        r.push(name[i]);
        assert(r@ =~= name@.subrange(b as int, i + 1));
        i = i + 1;
    }
    assert(r@ =~= name@.skip(b as int));
    r
}

/// The part of the path after its last `.`, or the whole path when it has
/// none: the key the analyzer's language dispatch uses.
pub open spec fn spec_dot_ext(p: Seq<char>) -> Seq<char> {
    let k = last_dot(p);
    if k >= 0 {
        p.skip(k + 1)
    } else {
        p
    }
}

/// The dispatch extension of a path, as [`spec_dot_ext`].
pub fn dot_ext_chars(p: &[char]) -> (r: Vec<char>)
    ensures
        r@ == spec_dot_ext(p@),
{
    let n = p.len();
    let mut b: usize = n;
    while b > 0 && p[b - 1] != '.'
        invariant
            n == p@.len(),
            b <= n,
            forall|j: int| b <= j < n ==> p@[j] != '.',
        decreases b,
    {
        b = b - 1;
    }
    proof {
        if b > 0 {
            lemma_last_dot_at(p@, b - 1);
        } else {
            lemma_last_dot_none(p@);
        }
    }
    let mut r: Vec<char> = Vec::new();
    let from: usize = if b > 0 {
        b
    } else {
        0
    };
    let mut i: usize = from;
    while i < n
        invariant
            from <= i <= n,
            n == p@.len(),
            r@ == p@.subrange(from as int, i as int),
        decreases n - i,
    {
        r.push(p[i]);
        assert(r@ =~= p@.subrange(from as int, i + 1));
        i = i + 1;
    }
    proof {
        if b > 0 {
            assert(r@ =~= p@.skip(b as int));
        } else {
            assert(r@ =~= p@);
        }
    }
    r
}

/// The two path fragments joined with a `/`, as [`spec_join`].
pub fn join_chars(parent: &[char], child: &[char]) -> (r: Vec<char>)
    ensures
        r@ == spec_join(parent@, child@),
{
    let mut r: Vec<char> = Vec::new();
    if parent.len() == 0 {
        r.extend_from_slice(child);
        assert(r@ =~= child@);
        return r;
    }
    r.extend_from_slice(parent);
    assert(r@ =~= parent@);
    r.push('/');
    r.extend_from_slice(child);
    assert(r@ =~= parent@ + seq!['/'] + child@);
    r
}

} // verus!
