//! The configuration resolver: one effective generation from a base
//! description, a machine-specific one and the imports they name.
//!
//! Reading the files is the caller's part: it asks `next_import` which file
//! to read and hands the result to `add_import`, until nothing is left.
//! `finish` then refuses imports that import themselves, directly or not.

use vstd::prelude::*;
use crate::text::{lemma_views_prefix, lemma_views_push, views};
use crate::history::contains_str;
use crate::generation::{Generation, merged};
use crate::graph::{acyclic, adj_view, edge, has_cycle, ranks};

verus! {

/// A resolution in progress.
pub struct Resolver {
    /// Everything merged so far; its imports are the names seen so far.
    pub generation: Generation,
    /// The imports already merged.
    pub done: Vec<String>,
    /// For each merged import, the imports that its file names.
    pub declared: Vec<Vec<String>>,
}

/// Why a resolution failed.
#[derive(Clone, Copy, Debug, PartialEq, Eq, Structural)]
pub enum ResolveError {
    /// Some import imports itself, directly or through others.
    ImportCycle,
}

/// Whether the `i`-th merged import names the `j`-th.
pub open spec fn declares(done: Seq<String>, declared: Seq<Vec<String>>, i: int, j: int) -> bool {
    0 <= i < done.len() && 0 <= j < done.len() && views(declared[i]@).contains(done[j]@)
}

/// Whether `rank` gives each merged import a lower rank than every import
/// it names.
pub open spec fn ranks_imports(done: Seq<String>, declared: Seq<Vec<String>>, rank: Seq<int>) -> bool {
    rank.len() == done.len() && forall|i: int, j: int| #[trigger] declares(done, declared, i, j) ==> rank[i] < rank[j]
}

/// Whether the merged imports can be ranked so that each names only imports
/// of a higher rank: no import imports itself.
pub open spec fn imports_acyclic(done: Seq<String>, declared: Seq<Vec<String>>) -> bool {
    exists|rank: Seq<int>| #[trigger] ranks_imports(done, declared, rank)
}

impl Resolver {
    pub open spec fn wf(&self) -> bool {
        self.declared@.len() == self.done@.len()
    }

    /// Starts from the base description.
    pub fn new(base: Generation) -> (r: Resolver)
        ensures
            r.wf(),
            r.generation@ == base@,
            r.done@.len() == 0,
    {
        Resolver { generation: base, done: Vec::new(), declared: Vec::new() }
    }

    /// Merges the machine-specific description.
    pub fn add_machine(&mut self, machine: Generation)
        ensures
            final(self).generation@ == merged(old(self).generation@, machine@),
            final(self).done@ == old(self).done@,
            final(self).declared@ == old(self).declared@,
    {
        self.generation.extend(machine);
    }

    /// The first import that is still to be merged, if any.
    pub fn next_import(&self) -> (r: Option<String>)
        ensures
            r is Some ==> exists|i: int|
                0 <= i < self.generation@.imports.len() && self.generation@.imports[i] == r->0@
                    && !views(self.done@).contains(r->0@) && forall|j: int|
                    0 <= j < i ==> views(self.done@).contains(#[trigger] self.generation@.imports[j]),
            r is None ==> forall|i: int|
                0 <= i < self.generation@.imports.len() ==> views(self.done@).contains(
                    #[trigger] self.generation@.imports[i],
                ),
    {
        let mut i: usize = 0;
        while i < self.generation.imports.len()
            invariant
                i <= self.generation.imports.len(),
                forall|j: int| 0 <= j < i ==> views(self.done@).contains(#[trigger] self.generation@.imports[j]),
            decreases self.generation.imports.len() - i,
        {
            let name = &self.generation.imports[i];
            assert(self.generation@.imports[i as int] == name@);
            if !contains_str(self.done.as_slice(), name) {
                let r = name.clone();
                assert(0 <= i < self.generation@.imports.len() && self.generation@.imports[i as int] == r@);
                return Some(r);
            }
            i = i + 1;
        }
        None
    }

    /// Merges import `name`, whose description is `imported`. A name that
    /// was merged before is not merged again, which keeps a cycle of imports
    /// from repeating forever.
    pub fn add_import(&mut self, name: &String, imported: Generation)
        requires
            old(self).wf(),
        ensures
            final(self).wf(),
            views(old(self).done@).contains(name@) ==> final(self).generation@ == old(self).generation@
                && final(self).done@ == old(self).done@ && final(self).declared@ == old(self).declared@,
            !views(old(self).done@).contains(name@) ==> final(self).generation@ == merged(
                old(self).generation@,
                imported@,
            ) && views(final(self).done@) == views(old(self).done@).push(name@)
                && final(self).done@.drop_last() == old(self).done@
                && final(self).declared@.drop_last() == old(self).declared@
                && views(final(self).declared@.last()@) == imported@.imports,
    {
        if contains_str(self.done.as_slice(), name) {
            return;
        }
        let names = clone_strings(&imported.imports);
        self.declared.push(names);
        self.generation.extend(imported);
        let ghost prev = self.done@;
        self.done.push(name.clone());
        proof {
            lemma_views_push(prev, *name);
            assert(self.done@.drop_last() =~= prev);
            assert(self.declared@.drop_last() =~= old(self).declared@);
        }
    }

    /// The import graph: for each merged import, the indices of the merged
    /// imports that it names.
    fn import_graph(&self) -> (r: Vec<Vec<usize>>)
        requires
            self.wf(),
        ensures
            r@.len() == self.done@.len(),
            forall|u: int, k: int| 0 <= u < r@.len() && 0 <= k < r@[u]@.len() ==> r@[u]@[k] < r@.len(),
            forall|i: int, j: int| #[trigger] edge(adj_view(r@), i, j) <==> declares(self.done@, self.declared@, i, j),
    {
        let n = self.done.len();
        let mut adj: Vec<Vec<usize>> = Vec::new();
        let mut i: usize = 0;
        while i < n
            invariant
                n == self.done@.len(),
                self.wf(),
                i <= n,
                adj@.len() == i,
                forall|u: int, k: int| 0 <= u < i && 0 <= k < adj@[u]@.len() ==> adj@[u]@[k] < n,
                forall|u: int, j: int| 0 <= u < i && 0 <= j < n ==> (adj@[u]@.contains(j as usize) <==> declares(self.done@, self.declared@, u, j)),
            decreases n - i,
        {
            let mut row: Vec<usize> = Vec::new();
            let mut j: usize = 0;
            while j < n
                invariant
                    n == self.done@.len(),
                    self.wf(),
                    i < n,
                    j <= n,
                    forall|k: int| 0 <= k < row@.len() ==> row@[k] < j,
                    forall|x: int| 0 <= x < n ==> (row@.contains(x as usize) <==> (x < j && declares(self.done@, self.declared@, i as int, x))),
                decreases n - j,
            {
                let ghost prev = row@;
                if contains_str(self.declared[i].as_slice(), &self.done[j]) {
                    row.push(j);
                    proof {
                        assert forall|x: int| 0 <= x < n implies (row@.contains(x as usize) <==> (x < j + 1 && declares(self.done@, self.declared@, i as int, x))) by {
                            if row@.contains(x as usize) {
                                let k = choose|k: int| 0 <= k < row@.len() && row@[k] == x as usize;
                                if k < prev.len() {
                                    assert(prev[k] == x as usize);
                                    assert(prev.contains(x as usize));
                                }
                            }
                            if x < j + 1 && declares(self.done@, self.declared@, i as int, x) {
                                if x < j {
                                    assert(prev.contains(x as usize));
                                    let k = choose|k: int| 0 <= k < prev.len() && prev[k] == x as usize;
                                    assert(row@[k] == x as usize);
                                } else {
                                    assert(row@[prev.len() as int] == x as usize);
                                }
                            }
                        }
                    }
                } else {
                    proof {
                        assert forall|x: int| 0 <= x < n implies (row@.contains(x as usize) <==> (x < j + 1 && declares(self.done@, self.declared@, i as int, x))) by {
                            if row@.contains(x as usize) {
                                let k = choose|k: int| 0 <= k < row@.len() && row@[k] == x as usize;
                            }
                        }
                    }
                }
                j = j + 1;
            }
            let ghost prev_adj = adj@;
            adj.push(row);
            proof {
                assert forall|u: int, x: int| 0 <= u < i + 1 && 0 <= x < n implies (adj@[u]@.contains(x as usize) <==> declares(self.done@, self.declared@, u, x)) by {
                    if u < i {
                        assert(adj@[u] == prev_adj[u]);
                    }
                }
            }
            i = i + 1;
        }
        proof {
            assert forall|u: int, v: int| #[trigger] edge(adj_view(adj@), u, v) <==> declares(self.done@, self.declared@, u, v) by {
                if 0 <= u < n && 0 <= v < n {
                    assert(adj_view(adj@)[u] == adj@[u]@);
                }
            }
        }
        adj
    }

    /// The effective generation: every import merged, none left to resolve.
    /// Fails if some import imports itself, directly or through others.
    pub fn finish(self) -> (r: Result<Generation, ResolveError>)
        requires
            self.wf(),
            forall|i: int|
                0 <= i < self.generation@.imports.len() ==> views(self.done@).contains(
                    #[trigger] self.generation@.imports[i],
                ),
        ensures
            r is Err <==> !imports_acyclic(self.done@, self.declared@),
            r is Err ==> r == Err::<Generation, ResolveError>(ResolveError::ImportCycle),
            r is Ok ==> r->Ok_0@.imports.len() == 0 && r->Ok_0@.managers == self.generation@.managers,
    {
        let adj = self.import_graph();
        let cyclic = has_cycle(&adj);
        proof {
            let a = adj_view(adj@);
            if acyclic(a) {
                let rk = choose|rk: Seq<int>| ranks(a, rk);
                assert forall|i: int, j: int| #[trigger] declares(self.done@, self.declared@, i, j) implies rk[i] < rk[j] by {
                    assert(edge(a, i, j));
                }
                assert(ranks_imports(self.done@, self.declared@, rk));
            }
            if imports_acyclic(self.done@, self.declared@) {
                let rk = choose|rk: Seq<int>| ranks_imports(self.done@, self.declared@, rk);
                assert forall|u: int, v: int| #[trigger] edge(a, u, v) implies rk[u] < rk[v] by {
                    assert(declares(self.done@, self.declared@, u, v));
                }
                assert(ranks(a, rk));
            }
        }
        if cyclic {
            return Err(ResolveError::ImportCycle);
        }
        let mut generation = self.generation;
        generation.imports = Vec::new();
        Ok(generation)
    }
}

/// A copy of `v`, element by element.
fn clone_strings(v: &Vec<String>) -> (r: Vec<String>)
    ensures
        views(r@) == views(v@),
{
    let mut out: Vec<String> = Vec::new();
    let mut i: usize = 0;
    while i < v.len()
        invariant
            i <= v.len(),
            views(out@) == views(v@.subrange(0, i as int)),
        decreases v.len() - i,
    {
        let ghost prev = out@;
        out.push(v[i].clone());
        proof {
            lemma_views_push(prev, v@[i as int]);
            lemma_views_prefix(v@, i as int);
        }
        i = i + 1;
    }
    assert(v@.subrange(0, v@.len() as int) =~= v@);
    out
}

} // verus!
