//! The code dependency graph: forward adjacency from each file to the files
//! it imports, the derived reverse adjacency, and a symbol table.
//!
//! The graph's invariant is that the reverse adjacency is always the exact
//! transpose of the forward adjacency: it is derived, never independently
//! authored.

use vstd::prelude::*;

use crate::extract::{analyze_file, spec_file_deps, spec_file_symbols};
use crate::text::spec_lines;

verus! {

/// A symbol declared in some file of the workspace.
pub struct SymbolInfo {
    pub name: String,
    pub kind: SymbolKind,
    pub file: String,
    pub line: usize,
    pub exported: bool,
}

/// The best-effort classification of a declared symbol.
#[derive(Clone, Copy, Debug, PartialEq, Eq, Structural)]
pub enum SymbolKind {
    Function,
    Class,
    Interface,
    Variable,
    Constant,
    Type,
    Module,
}

/// The mathematical value of a [`SymbolInfo`].
pub ghost struct SymbolView {
    pub name: Seq<char>,
    pub kind: SymbolKind,
    pub file: Seq<char>,
    pub line: nat,
    pub exported: bool,
}

impl View for SymbolInfo {
    type V = SymbolView;

    open spec fn view(&self) -> SymbolView {
        SymbolView {
            name: self.name@,
            kind: self.kind,
            file: self.file@,
            line: self.line as nat,
            exported: self.exported,
        }
    }
}

impl DeepView for SymbolInfo {
    type V = SymbolView;

    open spec fn deep_view(&self) -> SymbolView {
        self.view()
    }
}

/// No two elements of the sequence are equal.
pub open spec fn distinct_seq<A>(s: Seq<A>) -> bool {
    forall|i: int, j: int| 0 <= i < j < s.len() ==> s[i] != s[j]
}

/// An association list from a path to a list of paths.
pub type AdjList = Vec<(String, Vec<String>)>;

/// The key occurs in the association list.
pub open spec fn has_key(m: Seq<(String, Vec<String>)>, k: Seq<char>) -> bool {
    exists|i: int| 0 <= i < m.len() && (#[trigger] m[i]).0@ == k
}

/// All keys of the association list are distinct.
pub open spec fn distinct_keys(m: Seq<(String, Vec<String>)>) -> bool {
    forall|i: int, j: int| 0 <= i < j < m.len() ==> (#[trigger] m[i]).0@ != (#[trigger] m[j]).0@
}

/// Every value list of the association list is duplicate-free.
pub open spec fn lists_distinct(m: Seq<(String, Vec<String>)>) -> bool {
    forall|i: int| 0 <= i < m.len() ==> distinct_seq((#[trigger] m[i]).1.deep_view())
}

/// The key's list contains the value.
pub open spec fn in_list(m: Seq<(String, Vec<String>)>, k: Seq<char>, v: Seq<char>) -> bool {
    exists|i: int|
        0 <= i < m.len() && (#[trigger] m[i]).0@ == k && m[i].1.deep_view().contains(v)
}

/// Total number of list elements over the whole association list.
pub open spec fn sum_list_lens(m: Seq<(String, Vec<String>)>) -> nat
    decreases m.len(),
{
    if m.len() == 0 {
        0
    } else {
        sum_list_lens(m.drop_last()) + m.last().1@.len()
    }
}

/// Code dependency graph over the analyzed workspace.
pub struct CodeGraph {
    /// Map from file path to its dependencies (imports).
    dependencies: AdjList,
    /// Map from file path to files that depend on it.
    dependents: AdjList,
    /// Symbols discovered across the workspace, in discovery order.
    symbols: Vec<SymbolInfo>,
}

impl CodeGraph {
    /// There is a forward edge: `f` declares a dependency on `d`.
    pub closed spec fn dep_edge(self, f: Seq<char>, d: Seq<char>) -> bool {
        in_list(self.dependencies@, f, d)
    }

    /// There is a reverse edge: `f` is recorded as a dependent of `d`.
    pub closed spec fn rev_edge(self, d: Seq<char>, f: Seq<char>) -> bool {
        in_list(self.dependents@, d, f)
    }

    /// The file has an entry in the forward adjacency.
    pub closed spec fn has_file(self, f: Seq<char>) -> bool {
        has_key(self.dependencies@, f)
    }

    /// All symbol records, in discovery order.
    pub closed spec fn spec_symbols(self) -> Seq<SymbolView> {
        self.symbols.deep_view()
    }

    /// Total number of forward edges.
    pub closed spec fn spec_edge_count(self) -> nat {
        sum_list_lens(self.dependencies@)
    }

    /// The direct dependencies of a file, as a set.
    pub open spec fn spec_dependencies_of(self, f: Seq<char>) -> Set<Seq<char>> {
        Set::new(|d: Seq<char>| self.dep_edge(f, d))
    }

    /// The direct dependents of a file, as a set.
    pub open spec fn spec_dependents_of(self, d: Seq<char>) -> Set<Seq<char>> {
        Set::new(|f: Seq<char>| self.rev_edge(d, f))
    }

    /// Well-formedness: keys unique, adjacency lists duplicate-free, and the
    /// reverse adjacency the exact transpose of the forward adjacency.
    pub closed spec fn wf(self) -> bool {
        &&& distinct_keys(self.dependencies@)
        &&& distinct_keys(self.dependents@)
        &&& lists_distinct(self.dependencies@)
        &&& lists_distinct(self.dependents@)
        &&& forall|f: Seq<char>, d: Seq<char>|
            #![trigger self.dep_edge(f, d)]
            #![trigger self.rev_edge(d, f)]
            self.dep_edge(f, d) <==> self.rev_edge(d, f)
    }

    /// An empty graph: no files, no edges, no symbols.
    pub fn new() -> (r: Self)
        ensures
            r.wf(),
            r.spec_edge_count() == 0,
            r.spec_symbols() == Seq::<SymbolView>::empty(),
            forall|f: Seq<char>| !(#[trigger] r.has_file(f)),
            forall|f: Seq<char>, d: Seq<char>| !(#[trigger] r.dep_edge(f, d)),
            forall|d: Seq<char>, f: Seq<char>| !(#[trigger] r.rev_edge(d, f)),
    {
        let r = CodeGraph { dependencies: Vec::new(), dependents: Vec::new(), symbols: Vec::new() };
        assert(r.symbols.deep_view() =~= Seq::<SymbolView>::empty());
        r
    }

    /// Direct forward neighbors of a file; empty if the file is unknown.
    pub fn get_dependencies(&self, file_path: &str) -> (r: Vec<String>)
        requires
            self.wf(),
        ensures
            distinct_seq(r.deep_view()),
            forall|d: Seq<char>|
                #[trigger] r.deep_view().contains(d) <==> self.dep_edge(file_path@, d),
    {
        let key = String::from_str(file_path);
        match find_key(&self.dependencies, &key) {
            Some(i) => {
                let r = clone_string_vec(&self.dependencies[i].1);
                proof {
                    assert forall|d: Seq<char>|
                        #[trigger] r.deep_view().contains(d) <==> self.dep_edge(
                        file_path@,
                        d,
                    ) by {
                        if r.deep_view().contains(d) {
                            assert(in_list(self.dependencies@, file_path@, d));
                        }
                        if self.dep_edge(file_path@, d) {
                            let j = choose|j: int|
                                0 <= j < self.dependencies@.len() && (#[trigger] self.dependencies@[j]).0@
                                    == file_path@ && self.dependencies@[j].1.deep_view().contains(
                                    d,
                                );
                            assert(j == i);
                        }
                    }
                }
                r
            },
            None => {
                let r: Vec<String> = Vec::new();
                proof {
                    assert(r.deep_view() =~= Seq::<Seq<char>>::empty());
                    assert forall|d: Seq<char>| !(#[trigger] self.dep_edge(file_path@, d)) by {
                        if in_list(self.dependencies@, file_path@, d) {
                            assert(has_key(self.dependencies@, file_path@));
                        }
                    }
                }
                r
            },
        }
    }

    /// Direct reverse neighbors of a file; empty if the file is unknown.
    pub fn get_dependents(&self, file_path: &str) -> (r: Vec<String>)
        requires
            self.wf(),
        ensures
            distinct_seq(r.deep_view()),
            forall|f: Seq<char>|
                #[trigger] r.deep_view().contains(f) <==> self.rev_edge(file_path@, f),
    {
        let key = String::from_str(file_path);
        match find_key(&self.dependents, &key) {
            Some(i) => {
                let r = clone_string_vec(&self.dependents[i].1);
                proof {
                    assert forall|f: Seq<char>|
                        #[trigger] r.deep_view().contains(f) <==> self.rev_edge(
                        file_path@,
                        f,
                    ) by {
                        if r.deep_view().contains(f) {
                            assert(in_list(self.dependents@, file_path@, f));
                        }
                        if self.rev_edge(file_path@, f) {
                            let j = choose|j: int|
                                0 <= j < self.dependents@.len() && (#[trigger] self.dependents@[j]).0@
                                    == file_path@ && self.dependents@[j].1.deep_view().contains(f);
                            assert(j == i);
                        }
                    }
                }
                r
            },
            None => {
                let r: Vec<String> = Vec::new();
                proof {
                    assert(r.deep_view() =~= Seq::<Seq<char>>::empty());
                    assert forall|f: Seq<char>| !(#[trigger] self.rev_edge(file_path@, f)) by {
                        if in_list(self.dependents@, file_path@, f) {
                            assert(has_key(self.dependents@, file_path@));
                        }
                    }
                }
                r
            },
        }
    }

    /// Total number of forward edges, saturating at the machine limit.
    pub fn edge_count(&self) -> (r: usize)
        ensures
            if self.spec_edge_count() <= usize::MAX as nat {
                r == self.spec_edge_count()
            } else {
                r == usize::MAX
            },
    {
        let n = self.dependencies.len();
        let mut r: usize = 0;
        let mut i: usize = 0;
        while i < n
            invariant
                n == self.dependencies@.len(),
                i <= n,
                if sum_list_lens(self.dependencies@.take(i as int)) <= usize::MAX as nat {
                    r == sum_list_lens(self.dependencies@.take(i as int))
                } else {
                    r == usize::MAX
                },
            decreases n - i,
        {
            let l = self.dependencies[i].1.len();
            assert(self.dependencies@.take(i + 1).drop_last() =~= self.dependencies@.take(i as int));
            assert(sum_list_lens(self.dependencies@.take(i + 1)) == sum_list_lens(
                self.dependencies@.take(i as int),
            ) + self.dependencies@[i as int].1@.len());
            if r > usize::MAX - l {
                r = usize::MAX;
            } else {
                r = r + l;
            }
            i = i + 1;
        }
        assert(self.dependencies@.take(n as int) =~= self.dependencies@);
        r
    }

    /// All symbol records under the exact name, in discovery order.
    pub fn find_symbol(&self, name: &str) -> (r: Vec<SymbolInfo>)
        ensures
            r.deep_view() == self.spec_symbols().filter(|s: SymbolView| s.name == name@),
    {
        let ghost p = |s: SymbolView| s.name == name@;
        let key = String::from_str(name);
        let n = self.symbols.len();
        let mut r: Vec<SymbolInfo> = Vec::new();
        proof {
            reveal(Seq::filter);
            assert(r.deep_view() =~= self.symbols.deep_view().take(0).filter(p));
        }
        let mut i: usize = 0;
        while i < n
            invariant
                n == self.symbols@.len(),
                i <= n,
                p == (|s: SymbolView| s.name == name@),
                key@ == name@,
                r.deep_view() == self.symbols.deep_view().take(i as int).filter(p),
            decreases n - i,
        {
            let ghost pre = self.symbols.deep_view().take(i as int);
            proof {
                reveal(Seq::filter);
                assert(self.symbols.deep_view().take(i + 1).drop_last() =~= pre);
                assert(self.symbols.deep_view().take(i + 1).last() == self.symbols@[i as int]@);
            }
            if self.symbols[i].name == key {
                let ghost prev = r.deep_view();
                let s = copy_symbol(&self.symbols[i]);
                r.push(s);
                assert(r.deep_view() =~= prev.push(self.symbols@[i as int]@));
            }
            i = i + 1;
        }
        assert(self.symbols.deep_view().take(n as int) =~= self.symbols.deep_view());
        r
    }
}

impl CodeGraph {
    /// Record one analyzed file: its forward edge set is inserted verbatim,
    /// and the file is added to the reverse-adjacency entry of each target.
    /// A full re-index rebuilds the graph from scratch, so each file key is
    /// inserted at most once per pass.
    fn insert_file_result(&mut self, file: String, deps: Vec<String>, syms: Vec<SymbolInfo>)
        requires
            old(self).wf(),
            !old(self).has_file(file@),
            distinct_seq(deps.deep_view()),
        ensures
            final(self).wf(),
            forall|f: Seq<char>, d: Seq<char>|
                #[trigger] final(self).dep_edge(f, d) <==> old(self).dep_edge(f, d) || (f == file@
                    && deps.deep_view().contains(d)),
            forall|f: Seq<char>|
                #[trigger] final(self).has_file(f) <==> old(self).has_file(f) || f == file@,
            final(self).spec_symbols() == old(self).spec_symbols() + syms.deep_view(),
            final(self).spec_edge_count() == old(self).spec_edge_count()
                + deps.deep_view().len(),
    {
        let ghost old_deps = self.dependencies@;
        let ghost old_revs = self.dependents@;
        let ghost dset = deps.deep_view();

        let deps_copy = clone_string_vec(&deps);
        let entry_key = file.clone();
        self.dependencies.push((entry_key, deps_copy));
        proof {
            assert(self.dependencies@.drop_last() =~= old_deps);
            assert(self.dependencies@.last().1.deep_view() =~= dset);
            assert(self.spec_edge_count() == sum_list_lens(old_deps) + dset.len());
            assert forall|f: Seq<char>, d: Seq<char>|
                #[trigger] in_list(self.dependencies@, f, d) <==> in_list(old_deps, f, d) || (f
                    == file@ && dset.contains(d)) by {
                let m = self.dependencies@;
                if in_list(m, f, d) {
                    let i = choose|i: int|
                        0 <= i < m.len() && (#[trigger] m[i]).0@ == f
                            && m[i].1.deep_view().contains(d);
                    if i < old_deps.len() {
                        assert(old_deps[i] == m[i]);
                        assert(in_list(old_deps, f, d));
                    }
                }
                if in_list(old_deps, f, d) {
                    let i = choose|i: int|
                        0 <= i < old_deps.len() && (#[trigger] old_deps[i]).0@ == f
                            && old_deps[i].1.deep_view().contains(d);
                    assert(m[i] == old_deps[i]);
                    assert(in_list(m, f, d));
                }
                if f == file@ && dset.contains(d) {
                    assert((m[m.len() - 1]).0@ == f && m[m.len() - 1].1.deep_view().contains(d));
                    assert(in_list(m, f, d));
                }
            }
            assert forall|f: Seq<char>|
                #[trigger] has_key(self.dependencies@, f) <==> has_key(old_deps, f) || f
                    == file@ by {
                let m = self.dependencies@;
                if has_key(m, f) {
                    let i = choose|i: int| 0 <= i < m.len() && (#[trigger] m[i]).0@ == f;
                    if i < old_deps.len() {
                        assert(old_deps[i] == m[i]);
                        assert(has_key(old_deps, f));
                    }
                }
                if has_key(old_deps, f) {
                    let i = choose|i: int| 0 <= i < old_deps.len() && (#[trigger] old_deps[i]).0@ == f;
                    assert(m[i] == old_deps[i]);
                    assert(has_key(m, f));
                }
                if f == file@ {
                    assert((m[m.len() - 1]).0@ == f);
                    assert(has_key(m, f));
                }
            }
            assert(distinct_keys(self.dependencies@)) by {
                let m = self.dependencies@;
                assert forall|i: int, j: int| 0 <= i < j < m.len() implies (#[trigger] m[i]).0@ != (
                #[trigger] m[j]).0@ by {
                    if j < old_deps.len() {
                        assert(m[i] == old_deps[i] && m[j] == old_deps[j]);
                    } else {
                        if i < old_deps.len() {
                            assert(m[i] == old_deps[i]);
                            assert(m[j].0@ == file@);
                            if m[i].0@ == file@ {
                                assert(has_key(old_deps, file@));
                            }
                        }
                    }
                }
            }
            assert(lists_distinct(self.dependencies@)) by {
                let m = self.dependencies@;
                assert forall|i: int| 0 <= i < m.len() implies distinct_seq(
                    (#[trigger] m[i]).1.deep_view(),
                ) by {
                    if i < old_deps.len() {
                        assert(m[i] == old_deps[i]);
                        assert(distinct_seq(old_deps[i].1.deep_view()));
                    } else {
                        assert(m[i].1.deep_view() =~= dset);
                    }
                }
            }
        }
        proof {
            assert forall|d2: Seq<char>, f2: Seq<char>|
                #[trigger] in_list(old_revs, d2, f2) implies f2 != file@ by {
                if f2 == file@ {
                    assert(old(self).rev_edge(d2, file@));
                    assert(old(self).dep_edge(file@, d2));
                    assert(has_key(old_deps, file@));
                }
            }
            assert(dset.take(0) =~= Seq::<Seq<char>>::empty());
        }
        let n = deps.len();
        let mut idx: usize = 0;
        while idx < n
            invariant
                n == dset.len(),
                idx <= n,
                dset == deps.deep_view(),
                distinct_seq(dset),
                old_deps == old(self).dependencies@,
                old_revs == old(self).dependents@,
                self.symbols@ == old(self).symbols@,
                distinct_keys(self.dependencies@),
                lists_distinct(self.dependencies@),
                sum_list_lens(self.dependencies@) == sum_list_lens(old_deps) + dset.len(),
                forall|f: Seq<char>, d: Seq<char>|
                    #[trigger] in_list(self.dependencies@, f, d) <==> in_list(old_deps, f, d) || (f
                        == file@ && dset.contains(d)),
                forall|f: Seq<char>|
                    #[trigger] has_key(self.dependencies@, f) <==> has_key(old_deps, f) || f
                        == file@,
                distinct_keys(self.dependents@),
                lists_distinct(self.dependents@),
                forall|d2: Seq<char>, f2: Seq<char>|
                    #[trigger] in_list(self.dependents@, d2, f2) <==> in_list(old_revs, d2, f2)
                        || (f2 == file@ && dset.take(idx as int).contains(d2)),
                forall|d2: Seq<char>, f2: Seq<char>|
                    #[trigger] in_list(old_revs, d2, f2) ==> f2 != file@,
            decreases n - idx,
        {
            let ghost m = self.dependents@;
            let ghost dv = deps.deep_view()[idx as int];
            proof {
                assert(dset.take(idx + 1) =~= dset.take(idx as int).push(dv));
                assert(!dset.take(idx as int).contains(dv));
                assert(!in_list(m, dv, file@));
            }
            let d_str = &deps[idx];
            match find_key(&self.dependents, d_str) {
                Some(j) => {
                    let mut entry = self.dependents.remove(j);
                    let ghost old_list = entry.1.deep_view();
                    entry.1.push(file.clone());
                    proof {
                        assert(entry.1.deep_view() =~= old_list.push(file@));
                        assert(!old_list.contains(file@)) by {
                            if old_list.contains(file@) {
                                assert(in_list(m, dv, file@));
                            }
                        }
                    }
                    self.dependents.push(entry);
                    proof {
                        let m2 = self.dependents@;
                        assert(m2.drop_last() =~= m.remove(j as int));
                        assert(m.remove(j as int) =~= m.take(j as int) + m.skip(j + 1));
                        let mr = m.remove(j as int);
                        assert forall|i: int| 0 <= i < mr.len() implies (#[trigger] mr[i]) == (if i
                            < j {
                            m[i]
                        } else {
                            m[i + 1]
                        }) by {}
                        assert(m2.last().0@ == dv);
                        assert(m2.last().1.deep_view() =~= old_list.push(file@));
                        assert(distinct_keys(m2)) by {
                            assert forall|a: int, b: int| 0 <= a < b < m2.len() implies (
                            #[trigger] m2[a]).0@ != (#[trigger] m2[b]).0@ by {
                                if b < m2.len() - 1 {
                                } else {
                                    if m2[a].0@ == dv {
                                        if a < j {
                                            assert(m2[a] == m[a]);
                                            assert(m[a].0@ != m[j as int].0@);
                                        } else {
                                            assert(m2[a] == m[a + 1]);
                                            assert(m[j as int].0@ != m[a + 1].0@);
                                        }
                                    }
                                }
                            }
                        }
                        assert(lists_distinct(m2)) by {
                            assert forall|i: int| 0 <= i < m2.len() implies distinct_seq(
                                (#[trigger] m2[i]).1.deep_view(),
                            ) by {
                                if i < m2.len() - 1 {
                                    if i < j {
                                        assert(m2[i] == m[i]);
                                    } else {
                                        assert(m2[i] == m[i + 1]);
                                    }
                                } else {
                                    assert(m2[i].1.deep_view() =~= old_list.push(file@));
                                    assert(distinct_seq(m[j as int].1.deep_view()));
                                }
                            }
                        }
                        assert forall|d2: Seq<char>, f2: Seq<char>|
                            #[trigger] in_list(m2, d2, f2) <==> in_list(old_revs, d2, f2) || (f2
                                == file@ && dset.take(idx + 1).contains(d2)) by {
                            if in_list(m2, d2, f2) {
                                let i = choose|i: int|
                                    0 <= i < m2.len() && (#[trigger] m2[i]).0@ == d2
                                        && m2[i].1.deep_view().contains(f2);
                                if i < m2.len() - 1 {
                                    if i < j {
                                        assert(m2[i] == m[i]);
                                        assert(in_list(m, d2, f2));
                                    } else {
                                        assert(m2[i] == m[i + 1]);
                                        assert(in_list(m, d2, f2));
                                    }
                                } else {
                                    assert(d2 == dv);
                                    if f2 == file@ {
                                        assert(dset.take(idx + 1).contains(d2)) by {
                                            assert(dset.take(idx + 1).last() == dv);
                                        }
                                    } else {
                                        assert(old_list.contains(f2));
                                        assert((m[j as int]).0@ == d2
                                            && m[j as int].1.deep_view().contains(f2));
                                        assert(in_list(m, d2, f2));
                                    }
                                }
                            }
                            if in_list(old_revs, d2, f2) || (f2 == file@ && dset.take(
                                idx + 1,
                            ).contains(d2)) {
                                if in_list(old_revs, d2, f2) || (f2 == file@ && dset.take(
                                    idx as int,
                                ).contains(d2)) {
                                    assert(in_list(m, d2, f2));
                                    let i = choose|i: int|
                                        0 <= i < m.len() && (#[trigger] m[i]).0@ == d2
                                            && m[i].1.deep_view().contains(f2);
                                    if i == j {
                                        assert(m2.last().0@ == d2);
                                        assert(m2.last().1.deep_view().contains(f2)) by {
                                            assert(old_list.contains(f2));
                                            assert(old_list.push(file@)[choose|k: int|
                                                0 <= k < old_list.len() && old_list[k] == f2] == f2);
                                        }
                                        assert(in_list(m2, d2, f2));
                                    } else if i < j {
                                        assert(m2[i] == m[i]);
                                        assert(in_list(m2, d2, f2));
                                    } else {
                                        assert(m2[i - 1] == m[i]);
                                        assert(in_list(m2, d2, f2));
                                    }
                                } else {
                                    assert(f2 == file@ && d2 == dv);
                                    assert(m2.last().0@ == d2);
                                    assert(m2.last().1.deep_view().contains(f2)) by {
                                        assert(old_list.push(file@).last() == file@);
                                    }
                                    assert(in_list(m2, d2, f2));
                                }
                            }
                        }
                    }
                },
                None => {
                    let mut l: Vec<String> = Vec::new();
                    l.push(file.clone());
                    proof {
                        assert(l.deep_view() =~= Seq::<Seq<char>>::empty().push(file@));
                    }
                    self.dependents.push((d_str.clone(), l));
                    proof {
                        let m2 = self.dependents@;
                        assert(m2.drop_last() =~= m);
                        assert(m2.last().0@ == dv);
                        assert(m2.last().1.deep_view() =~= Seq::<Seq<char>>::empty().push(file@));
                        assert(distinct_keys(m2)) by {
                            assert forall|a: int, b: int| 0 <= a < b < m2.len() implies (
                            #[trigger] m2[a]).0@ != (#[trigger] m2[b]).0@ by {
                                if b < m2.len() - 1 {
                                    assert(m2[a] == m[a] && m2[b] == m[b]);
                                } else {
                                    assert(m2[a] == m[a]);
                                    if m2[a].0@ == dv {
                                        assert(has_key(m, dv));
                                    }
                                }
                            }
                        }
                        assert(lists_distinct(m2)) by {
                            assert forall|i: int| 0 <= i < m2.len() implies distinct_seq(
                                (#[trigger] m2[i]).1.deep_view(),
                            ) by {
                                if i < m2.len() - 1 {
                                    assert(m2[i] == m[i]);
                                }
                            }
                        }
                        assert forall|d2: Seq<char>, f2: Seq<char>|
                            #[trigger] in_list(m2, d2, f2) <==> in_list(old_revs, d2, f2) || (f2
                                == file@ && dset.take(idx + 1).contains(d2)) by {
                            if in_list(m2, d2, f2) {
                                let i = choose|i: int|
                                    0 <= i < m2.len() && (#[trigger] m2[i]).0@ == d2
                                        && m2[i].1.deep_view().contains(f2);
                                if i < m2.len() - 1 {
                                    assert(m2[i] == m[i]);
                                    assert(in_list(m, d2, f2));
                                } else {
                                    assert(d2 == dv && f2 == file@);
                                    assert(dset.take(idx + 1).contains(d2)) by {
                                        assert(dset.take(idx + 1).last() == dv);
                                    }
                                }
                            }
                            if in_list(old_revs, d2, f2) || (f2 == file@ && dset.take(
                                idx + 1,
                            ).contains(d2)) {
                                if in_list(old_revs, d2, f2) || (f2 == file@ && dset.take(
                                    idx as int,
                                ).contains(d2)) {
                                    assert(in_list(m, d2, f2));
                                    let i = choose|i: int|
                                        0 <= i < m.len() && (#[trigger] m[i]).0@ == d2
                                            && m[i].1.deep_view().contains(f2);
                                    assert(m2[i] == m[i]);
                                    assert(in_list(m2, d2, f2));
                                } else {
                                    assert(f2 == file@ && d2 == dv);
                                    assert(m2.last().1.deep_view().contains(f2)) by {
                                        assert(m2.last().1.deep_view().last() == file@);
                                    }
                                    assert(in_list(m2, d2, f2));
                                }
                            }
                        }
                    }
                },
            }
            idx = idx + 1;
        }
        proof {
            assert(dset.take(n as int) =~= dset);
        }
        let ghost old_syms = self.symbols.deep_view();
        let ghost sv = syms.deep_view();
        let mut syms = syms;
        self.symbols.append(&mut syms);
        proof {
            assert(self.symbols.deep_view() =~= old_syms + sv);
            assert forall|f: Seq<char>, d: Seq<char>|
                #![trigger self.dep_edge(f, d)]
                #![trigger self.rev_edge(d, f)]
                self.dep_edge(f, d) <==> self.rev_edge(d, f) by {
                assert(in_list(self.dependencies@, f, d) <==> in_list(old_deps, f, d) || (f
                    == file@ && dset.contains(d)));
                assert(in_list(self.dependents@, d, f) <==> in_list(old_revs, d, f) || (f == file@
                    && dset.contains(d)));
                assert(in_list(old_deps, f, d) <==> in_list(old_revs, d, f)) by {
                    assert(old(self).dep_edge(f, d) <==> old(self).rev_edge(d, f));
                }
            }
        }
    }
}

/// One file's path and text, handed in by the caller after the workspace
/// walk.
pub struct SourceFile {
    pub path: String,
    pub content: String,
}

/// The mathematical value of a [`SourceFile`].
pub ghost struct SourceFileView {
    pub path: Seq<char>,
    pub content: Seq<char>,
}

impl View for SourceFile {
    type V = SourceFileView;

    open spec fn view(&self) -> SourceFileView {
        SourceFileView { path: self.path@, content: self.content@ }
    }
}

impl DeepView for SourceFile {
    type V = SourceFileView;

    open spec fn deep_view(&self) -> SourceFileView {
        self.view()
    }
}

/// No two files share a path.
pub open spec fn distinct_paths(files: Seq<SourceFileView>) -> bool {
    forall|i: int, j: int|
        0 <= i < j < files.len() ==> (#[trigger] files[i]).path != (#[trigger] files[j]).path
}

/// Total number of forward edges the analysis of these files yields: each
/// file contributes the cardinality of its dependency-key set.
pub open spec fn spec_workspace_edge_count(
    files: Seq<SourceFileView>,
    existing: Seq<Seq<char>>,
) -> nat
    decreases files.len(),
{
    if files.len() == 0 {
        0
    } else {
        spec_workspace_edge_count(files.drop_last(), existing) + spec_file_deps(
            files.last().path,
            files.last().content,
            existing,
        ).len()
    }
}

/// The symbols of all files, in file order then line order.
pub open spec fn spec_workspace_symbols(files: Seq<SourceFileView>) -> Seq<SymbolView>
    decreases files.len(),
{
    if files.len() == 0 {
        Seq::empty()
    } else {
        spec_workspace_symbols(files.drop_last()) + spec_file_symbols(
            files.last().path,
            spec_lines(files.last().content),
        )
    }
}

impl CodeGraph {
    /// The graph is exactly what analyzing these files yields: an edge from a
    /// file to each dependency key its text declares, and the symbols of all
    /// files in order.
    pub open spec fn analyzed_from(
        self,
        files: Seq<SourceFileView>,
        existing: Seq<Seq<char>>,
    ) -> bool {
        &&& forall|f: Seq<char>, d: Seq<char>|
            #[trigger] self.dep_edge(f, d) <==> exists|i: int|
                0 <= i < files.len() && (#[trigger] files[i]).path == f && spec_file_deps(
                    f,
                    files[i].content,
                    existing,
                ).contains(d)
        &&& forall|f: Seq<char>|
            #[trigger] self.has_file(f) <==> exists|i: int|
                0 <= i < files.len() && (#[trigger] files[i]).path == f
        &&& self.spec_symbols() == spec_workspace_symbols(files)
    }

    /// Analyze a whole workspace: extract each file and merge the results
    /// into a freshly rebuilt graph. The caller walks the workspace and
    /// reads the files; paths are unique, as a directory walk yields them.
    pub fn analyze_workspace(&mut self, files: &Vec<SourceFile>, existing: &Vec<String>)
        requires
            distinct_paths(files.deep_view()),
        ensures
            final(self).wf(),
            final(self).analyzed_from(files.deep_view(), existing.deep_view()),
            final(self).spec_edge_count() == spec_workspace_edge_count(
                files.deep_view(),
                existing.deep_view(),
            ),
    {
        let ghost fv = files.deep_view();
        let ghost ex = existing.deep_view();
        *self = CodeGraph::new();
        proof {
            assert(spec_workspace_symbols(fv.take(0)) =~= Seq::<SymbolView>::empty());
            assert(fv.take(0) =~= Seq::<SourceFileView>::empty());
            assert(spec_workspace_edge_count(fv.take(0), ex) == 0);
        }
        let n = files.len();
        let mut i: usize = 0;
        while i < n
            invariant
                n == files@.len(),
                i <= n,
                fv == files.deep_view(),
                ex == existing.deep_view(),
                distinct_paths(fv),
                self.wf(),
                forall|f: Seq<char>, d: Seq<char>|
                    #[trigger] self.dep_edge(f, d) <==> exists|j: int|
                        0 <= j < i && (#[trigger] fv[j]).path == f && spec_file_deps(
                            f,
                            fv[j].content,
                            ex,
                        ).contains(d),
                forall|f: Seq<char>|
                    #[trigger] self.has_file(f) <==> exists|j: int|
                        0 <= j < i && (#[trigger] fv[j]).path == f,
                self.spec_symbols() == spec_workspace_symbols(fv.take(i as int)),
                self.spec_edge_count() == spec_workspace_edge_count(fv.take(i as int), ex),
            decreases n - i,
        {
            let ghost pre = *self;
            assert(files.deep_view()[i as int] == files@[i as int].deep_view());
            let ghost pathv = fv[i as int].path;
            let (deps, syms) = analyze_file(
                files[i].path.as_str(),
                files[i].content.as_str(),
                existing,
            );
            proof {
                assert(!self.has_file(pathv)) by {
                    if self.has_file(pathv) {
                        let j = choose|j: int| 0 <= j < i && (#[trigger] fv[j]).path == pathv;
                        assert(fv[j].path != fv[i as int].path);
                    }
                }
            }
            let file_key = files[i].path.clone();
            self.insert_file_result(file_key, deps, syms);
            proof {
                assert forall|f: Seq<char>, d: Seq<char>|
                    #[trigger] self.dep_edge(f, d) <==> exists|j: int|
                        0 <= j < i + 1 && (#[trigger] fv[j]).path == f && spec_file_deps(
                            f,
                            fv[j].content,
                            ex,
                        ).contains(d) by {
                    if self.dep_edge(f, d) {
                        if pre.dep_edge(f, d) {
                            let j = choose|j: int|
                                0 <= j < i && (#[trigger] fv[j]).path == f && spec_file_deps(
                                    f,
                                    fv[j].content,
                                    ex,
                                ).contains(d);
                            assert(0 <= j < i + 1 && fv[j].path == f && spec_file_deps(
                                f,
                                fv[j].content,
                                ex,
                            ).contains(d));
                        } else {
                            assert(f == pathv && deps.deep_view().contains(d));
                            assert((fv[i as int]).path == f && spec_file_deps(
                                f,
                                fv[i as int].content,
                                ex,
                            ).contains(d));
                        }
                    }
                    if exists|j: int|
                        0 <= j < i + 1 && (#[trigger] fv[j]).path == f && spec_file_deps(
                            f,
                            fv[j].content,
                            ex,
                        ).contains(d) {
                        let j = choose|j: int|
                            0 <= j < i + 1 && (#[trigger] fv[j]).path == f && spec_file_deps(
                                f,
                                fv[j].content,
                                ex,
                            ).contains(d);
                        if j < i {
                            assert(pre.dep_edge(f, d));
                        } else {
                            assert(deps.deep_view().contains(d));
                        }
                    }
                }
                assert forall|f: Seq<char>|
                    #[trigger] self.has_file(f) <==> exists|j: int|
                        0 <= j < i + 1 && (#[trigger] fv[j]).path == f by {
                    if self.has_file(f) {
                        if pre.has_file(f) {
                            let j = choose|j: int| 0 <= j < i && (#[trigger] fv[j]).path == f;
                            assert(0 <= j < i + 1 && fv[j].path == f);
                        } else {
                            assert((fv[i as int]).path == f);
                        }
                    }
                }
                assert(fv.take(i + 1).drop_last() =~= fv.take(i as int));
                assert(fv.take(i + 1).last() == fv[i as int]);
                assert(self.spec_symbols() =~= spec_workspace_symbols(fv.take(i + 1)));
                let dv = deps.deep_view();
                assert(dv.no_duplicates());
                dv.unique_seq_to_set();
                assert(dv.to_set() =~= spec_file_deps(pathv, fv[i as int].content, ex));
                assert(dv.len() == spec_file_deps(pathv, fv[i as int].content, ex).len());
                assert(self.spec_edge_count() == spec_workspace_edge_count(fv.take(i + 1), ex));
            }
            i = i + 1;
        }
        proof {
            assert(fv.take(n as int) =~= fv);
        }
    }

    /// The set together with every direct dependent of one of its members:
    /// one frontier expansion of the reverse-dependency traversal.
    pub open spec fn rev_step(self, s: Set<Seq<char>>) -> Set<Seq<char>> {
        s.union(
            Set::new(
                |f: Seq<char>| exists|d: Seq<char>| s.contains(d) && #[trigger] self.rev_edge(d, f),
            ),
        )
    }

    /// Every file within `depth` hops of reverse dependency of the start
    /// file, the start file included.
    pub open spec fn spec_impact_scope(self, start: Seq<char>, depth: nat) -> Set<Seq<char>>
        decreases depth,
    {
        if depth == 0 {
            set![start]
        } else {
            self.rev_step(self.spec_impact_scope(start, (depth - 1) as nat))
        }
    }
}

impl CodeGraph {
    /// Once one expansion adds nothing, no further expansion does.
    proof fn lemma_scope_stable(self, start: Seq<char>, m: nat, k: nat)
        requires
            self.spec_impact_scope(start, m + 1) == self.spec_impact_scope(start, m),
            m <= k,
        ensures
            self.spec_impact_scope(start, k) == self.spec_impact_scope(start, m),
        decreases k,
    {
        if k > m {
            self.lemma_scope_stable(start, m, (k - 1) as nat);
        }
    }

    /// Every file affected, up to `max_depth` hops of reverse dependency, by
    /// a change to the given file: a breadth-first traversal over the
    /// reverse adjacency, frontier by frontier, visiting each file at most
    /// once. The start file itself is part of the result.
    pub fn get_impact_scope(&self, file_path: &str, max_depth: usize) -> (r: Vec<String>)
        requires
            self.wf(),
        ensures
            distinct_seq(r.deep_view()),
            forall|f: Seq<char>|
                #[trigger] r.deep_view().contains(f) <==> self.spec_impact_scope(
                    file_path@,
                    max_depth as nat,
                ).contains(f),
    {
        let ghost start = file_path@;
        let mut affected: Vec<String> = Vec::new();
        affected.push(String::from_str(file_path));
        let mut frontier: Vec<String> = Vec::new();
        frontier.push(String::from_str(file_path));
        proof {
            assert(affected.deep_view() =~= Seq::<Seq<char>>::empty().push(start));
            assert(frontier.deep_view() =~= Seq::<Seq<char>>::empty().push(start));
            assert forall|f: Seq<char>|
                #[trigger] affected.deep_view().contains(f) <==> self.spec_impact_scope(
                    start,
                    0,
                ).contains(f) by {
                if affected.deep_view().contains(f) {
                    assert(affected.deep_view()[0] == start);
                    assert(f == start);
                }
                if f == start {
                    assert(affected.deep_view()[0] == f);
                }
            }
            assert forall|f: Seq<char>|
                #[trigger] self.spec_impact_scope(start, 1).contains(f)
                    <==> affected.deep_view().contains(f) || (exists|d: Seq<char>|
                    frontier.deep_view().contains(d) && #[trigger] self.rev_edge(d, f)) by {
                assert(self.spec_impact_scope(start, 1) == self.rev_step(
                    self.spec_impact_scope(start, 0),
                ));
                if self.spec_impact_scope(start, 1).contains(f) {
                    if self.spec_impact_scope(start, 0).contains(f) {
                        assert(affected.deep_view()[0] == start);
                    } else {
                        let d = choose|d: Seq<char>|
                            self.spec_impact_scope(start, 0).contains(d) && #[trigger] self.rev_edge(
                                d,
                                f,
                            );
                        assert(frontier.deep_view()[0] == d);
                    }
                }
                if affected.deep_view().contains(f) {
                    assert(f == start);
                    assert(self.spec_impact_scope(start, 0).contains(f));
                }
                if exists|d: Seq<char>|
                    frontier.deep_view().contains(d) && #[trigger] self.rev_edge(d, f) {
                    let d = choose|d: Seq<char>|
                        frontier.deep_view().contains(d) && #[trigger] self.rev_edge(d, f);
                    assert(d == start);
                    assert(self.spec_impact_scope(start, 0).contains(d));
                }
            }
        }
        let mut depth: usize = 0;
        while depth < max_depth && frontier.len() > 0
            invariant
                self.wf(),
                depth <= max_depth,
                distinct_seq(affected.deep_view()),
                forall|f: Seq<char>|
                    #[trigger] affected.deep_view().contains(f) <==> self.spec_impact_scope(
                        start,
                        depth as nat,
                    ).contains(f),
                forall|f: Seq<char>|
                    #[trigger] self.spec_impact_scope(start, (depth + 1) as nat).contains(f)
                        <==> affected.deep_view().contains(f) || (exists|d: Seq<char>|
                        frontier.deep_view().contains(d) && #[trigger] self.rev_edge(d, f)),
            decreases max_depth - depth,
        {
            let ghost a0 = affected.deep_view();
            let ghost fset = frontier.deep_view();
            let mut next: Vec<String> = Vec::new();
            proof {
                assert(next.deep_view() =~= Seq::<Seq<char>>::empty());
                assert(fset.take(0) =~= Seq::<Seq<char>>::empty());
            }
            let fl = frontier.len();
            let mut k: usize = 0;
            while k < fl
                invariant
                    self.wf(),
                    fl == frontier@.len(),
                    fset == frontier.deep_view(),
                    k <= fl,
                    distinct_seq(affected.deep_view()),
                    forall|f: Seq<char>| a0.contains(f) ==> #[trigger] affected.deep_view().contains(f),
                    forall|f: Seq<char>|
                        #[trigger] affected.deep_view().contains(f) <==> a0.contains(f) || (exists|
                            d: Seq<char>,
                        |
                            fset.take(k as int).contains(d) && #[trigger] self.rev_edge(d, f)),
                    forall|f: Seq<char>|
                        #[trigger] next.deep_view().contains(f) <==> affected.deep_view().contains(
                            f,
                        ) && !a0.contains(f),
                decreases fl - k,
            {
                assert(frontier.deep_view()[k as int] == frontier@[k as int]@);
                let ghost dkey = fset[k as int];
                let dl = self.get_dependents(frontier[k].as_str());
                let m = dl.len();
                let mut j: usize = 0;
                proof {
                    assert(dl.deep_view().take(0) =~= Seq::<Seq<char>>::empty());
                }
                while j < m
                    invariant
                        self.wf(),
                        m == dl@.len(),
                        j <= m,
                        k < fl,
                        fl == frontier@.len(),
                        fset == frontier.deep_view(),
                        dkey == fset[k as int],
                        distinct_seq(affected.deep_view()),
                        forall|f: Seq<char>|
                            #[trigger] dl.deep_view().contains(f) <==> self.rev_edge(dkey, f),
                        forall|f: Seq<char>|
                            a0.contains(f) ==> #[trigger] affected.deep_view().contains(f),
                        forall|f: Seq<char>|
                            #[trigger] affected.deep_view().contains(f) <==> a0.contains(f) || (
                            exists|d: Seq<char>|
                                fset.take(k as int).contains(d) && #[trigger] self.rev_edge(d, f))
                                || dl.deep_view().take(j as int).contains(f),
                        forall|f: Seq<char>|
                            #[trigger] next.deep_view().contains(f)
                                <==> affected.deep_view().contains(f) && !a0.contains(f),
                    decreases m - j,
                {
                    assert(dl.deep_view()[j as int] == dl@[j as int]@);
                    let ghost yv = dl.deep_view()[j as int];
                    let y = dl[j].clone();
                    assert(y@ == yv);
                    if !vec_contains_string(&affected, &y) {
                        let ghost aprev = affected.deep_view();
                        let ghost nprev = next.deep_view();
                        let y2 = y.clone();
                        affected.push(y);
                        next.push(y2);
                        proof {
                            assert(affected.deep_view() =~= aprev.push(yv));
                            assert(next.deep_view() =~= nprev.push(yv));
                            lemma_push_contains(aprev, yv);
                            lemma_push_contains(nprev, yv);
                            lemma_push_distinct(aprev, yv);
                        }
                    }
                    proof {
                        assert(dl.deep_view().take(j + 1).drop_last() =~= dl.deep_view().take(
                            j as int,
                        ));
                        lemma_push_contains(dl.deep_view().take(j as int), yv);
                        assert(dl.deep_view().take(j + 1) =~= dl.deep_view().take(j as int).push(
                            yv,
                        ));
                    }
                    j = j + 1;
                }
                proof {
                    assert(dl.deep_view().take(m as int) =~= dl.deep_view());
                    assert(fset.take(k + 1) =~= fset.take(k as int).push(dkey));
                    lemma_push_contains(fset.take(k as int), dkey);
                    assert forall|f: Seq<char>|
                        #[trigger] affected.deep_view().contains(f) <==> a0.contains(f) || (exists|
                            d: Seq<char>,
                        |
                            fset.take(k + 1).contains(d) && #[trigger] self.rev_edge(d, f)) by {
                        if affected.deep_view().contains(f) && !a0.contains(f) {
                            if exists|d: Seq<char>|
                                fset.take(k as int).contains(d) && #[trigger] self.rev_edge(d, f) {
                                let d = choose|d: Seq<char>|
                                    fset.take(k as int).contains(d) && #[trigger] self.rev_edge(
                                        d,
                                        f,
                                    );
                                assert(fset.take(k + 1).contains(d) && self.rev_edge(d, f));
                            } else {
                                assert(dl.deep_view().contains(f));
                                assert(fset.take(k + 1).contains(dkey) && self.rev_edge(dkey, f));
                            }
                        }
                        if exists|d: Seq<char>|
                            fset.take(k + 1).contains(d) && #[trigger] self.rev_edge(d, f) {
                            let d = choose|d: Seq<char>|
                                fset.take(k + 1).contains(d) && #[trigger] self.rev_edge(d, f);
                            if fset.take(k as int).contains(d) {
                                assert(affected.deep_view().contains(f));
                            } else {
                                assert(d == dkey);
                                assert(dl.deep_view().contains(f));
                            }
                        }
                    }
                }
                k = k + 1;
            }
            proof {
                assert(fset.take(fl as int) =~= fset);
                let ghost sc1 = self.spec_impact_scope(start, (depth + 1) as nat);
                assert forall|f: Seq<char>|
                    #[trigger] affected.deep_view().contains(f) <==> sc1.contains(f) by {
                    if affected.deep_view().contains(f) && !a0.contains(f) {
                        let d = choose|d: Seq<char>|
                            fset.contains(d) && #[trigger] self.rev_edge(d, f);
                        assert(sc1.contains(f));
                    }
                }
                let ghost sc2 = self.spec_impact_scope(start, (depth + 2) as nat);
                assert(sc2 == self.rev_step(sc1));
                assert forall|f: Seq<char>|
                    #[trigger] sc2.contains(f) <==> affected.deep_view().contains(f) || (exists|
                        d: Seq<char>,
                    |
                        next.deep_view().contains(d) && #[trigger] self.rev_edge(d, f)) by {
                    if sc2.contains(f) {
                        if sc1.contains(f) {
                            assert(affected.deep_view().contains(f));
                        } else {
                            let d = choose|d: Seq<char>|
                                sc1.contains(d) && #[trigger] self.rev_edge(d, f);
                            assert(affected.deep_view().contains(d));
                            if a0.contains(d) {
                                assert(self.spec_impact_scope(start, depth as nat).contains(d));
                                assert(sc1.contains(f));
                            } else {
                                assert(next.deep_view().contains(d));
                            }
                        }
                    }
                    if affected.deep_view().contains(f) {
                        assert(sc1.contains(f));
                        assert(sc2.contains(f));
                    }
                    if exists|d: Seq<char>|
                        next.deep_view().contains(d) && #[trigger] self.rev_edge(d, f) {
                        let d = choose|d: Seq<char>|
                            next.deep_view().contains(d) && #[trigger] self.rev_edge(d, f);
                        assert(affected.deep_view().contains(d));
                        assert(sc1.contains(d));
                        assert(sc2.contains(f));
                    }
                }
            }
            frontier = next;
            depth = depth + 1;
        }
        proof {
            if depth < max_depth {
                assert(frontier@.len() == 0);
                assert forall|f: Seq<char>|
                    #[trigger] self.spec_impact_scope(start, (depth + 1) as nat).contains(f)
                        <==> affected.deep_view().contains(f) by {
                    if self.spec_impact_scope(start, (depth + 1) as nat).contains(f) {
                        if exists|d: Seq<char>|
                            frontier.deep_view().contains(d) && #[trigger] self.rev_edge(d, f) {
                            let d = choose|d: Seq<char>|
                                frontier.deep_view().contains(d) && #[trigger] self.rev_edge(d, f);
                            assert(frontier.deep_view().len() == 0);
                            assert(false);
                        }
                    }
                }
                assert(self.spec_impact_scope(start, (depth + 1) as nat) =~= self.spec_impact_scope(
                    start,
                    depth as nat,
                ));
                self.lemma_scope_stable(start, depth as nat, max_depth as nat);
            }
        }
        affected
    }
}

/// The forward/reverse transpose law: for every file, its dependents are
/// exactly the files whose dependency sets include it.
pub proof fn lemma_dependents_transpose(g: CodeGraph, f: Seq<char>)
    requires
        g.wf(),
    ensures
        g.spec_dependents_of(f) == Set::new(
            |h: Seq<char>| g.spec_dependencies_of(h).contains(f),
        ),
{
    assert forall|h: Seq<char>|
        #[trigger] g.spec_dependents_of(f).contains(h) <==> g.spec_dependencies_of(h).contains(
            f,
        ) by {
        assert(g.spec_dependents_of(f).contains(h) == g.rev_edge(f, h));
        assert(g.spec_dependencies_of(h).contains(f) == g.dep_edge(h, f));
    }
    assert(g.spec_dependents_of(f) =~= Set::new(
        |h: Seq<char>| g.spec_dependencies_of(h).contains(f),
    ));
}

/// The impact scope at depth zero is the start file alone, and the scope is
/// monotone in the depth bound: each expansion only adds files.
pub proof fn lemma_impact_scope_monotone(g: CodeGraph, start: Seq<char>, depth: nat)
    ensures
        g.spec_impact_scope(start, 0) == set![start],
        g.spec_impact_scope(start, depth).subset_of(
            g.spec_impact_scope(start, (depth + 1) as nat),
        ),
{
    assert forall|f: Seq<char>|
        #[trigger] g.spec_impact_scope(start, depth).contains(f) implies g.spec_impact_scope(
        start,
        (depth + 1) as nat,
    ).contains(f) by {
        assert(g.spec_impact_scope(start, (depth + 1) as nat) == g.rev_step(
            g.spec_impact_scope(start, depth),
        ));
    }
}

/// Membership in a pushed sequence: the old members and the new one.
proof fn lemma_push_contains(s: Seq<Seq<char>>, x: Seq<char>)
    ensures
        forall|f: Seq<char>| #[trigger] s.push(x).contains(f) <==> s.contains(f) || f == x,
{
    assert forall|f: Seq<char>| #[trigger] s.push(x).contains(f) <==> s.contains(f) || f == x by {
        if s.push(x).contains(f) {
            let i = choose|i: int| 0 <= i < s.push(x).len() && s.push(x)[i] == f;
            if i < s.len() {
                assert(s[i] == f);
            }
        }
        if s.contains(f) {
            let i = choose|i: int| 0 <= i < s.len() && s[i] == f;
            assert(s.push(x)[i] == f);
        }
        if f == x {
            assert(s.push(x).last() == f);
        }
    }
}

/// A pushed sequence stays duplicate-free when the new element is fresh.
proof fn lemma_push_distinct(s: Seq<Seq<char>>, x: Seq<char>)
    requires
        distinct_seq(s),
        !s.contains(x),
    ensures
        distinct_seq(s.push(x)),
{
    assert forall|a: int, b: int| 0 <= a < b < s.push(x).len() implies s.push(x)[a]
        != s.push(x)[b] by {
        if b < s.len() {
        } else {
            assert(s.push(x)[b] == x);
            assert(s.push(x)[a] == s[a]);
            if s[a] == x {
                assert(s.contains(x));
            }
        }
    }
}

/// Position of the entry with the given key, if any.
pub(crate) fn find_key(m: &AdjList, k: &String) -> (r: Option<usize>)
    ensures
        match r {
            Some(i) => i < m@.len() && m@[i as int].0@ == k@,
            None => !has_key(m@, k@),
        },
{
    let n = m.len();
    let mut i: usize = 0;
    while i < n
        invariant
            n == m@.len(),
            i <= n,
            forall|j: int| 0 <= j < i ==> (#[trigger] m@[j]).0@ != k@,
        decreases n - i,
    {
        if m[i].0 == *k {
            return Some(i);
        }
        i = i + 1;
    }
    None
}

/// An element-wise copy of a vector of strings, with the same view.
fn clone_string_vec(v: &Vec<String>) -> (r: Vec<String>)
    ensures
        r@ == v@,
{
    let n = v.len();
    let mut r: Vec<String> = Vec::new();
    let mut i: usize = 0;
    while i < n
        invariant
            n == v@.len(),
            i <= n,
            r@ == v@.subrange(0, i as int),
        decreases n - i,
    {
        r.push(v[i].clone());
        assert(r@ =~= v@.subrange(0, i + 1));
        i = i + 1;
    }
    assert(r@ =~= v@);
    r
}

/// Whether the vector holds a string with the given characters.
pub(crate) fn vec_contains_string(v: &Vec<String>, x: &String) -> (r: bool)
    ensures
        r == v.deep_view().contains(x@),
{
    let n = v.len();
    let mut i: usize = 0;
    while i < n
        invariant
            n == v@.len(),
            i <= n,
            forall|j: int| 0 <= j < i ==> v.deep_view()[j] != x@,
        decreases n - i,
    {
        if v[i] == *x {
            assert(v.deep_view()[i as int] == x@);
            return true;
        }
        i = i + 1;
    }
    false
}

/// A copy of a symbol record equal to the original.
fn copy_symbol(s: &SymbolInfo) -> (r: SymbolInfo)
    ensures
        r == *s,
{
    SymbolInfo {
        name: s.name.clone(),
        kind: s.kind,
        file: s.file.clone(),
        line: s.line,
        exported: s.exported,
    }
}

} // verus!
