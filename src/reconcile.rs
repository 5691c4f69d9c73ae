//! Reconciliation of the live system: what each backend must install and
//! remove to go from the built generation to the current one.

use vstd::prelude::*;
use crate::text::views;
use crate::history::{missing_from, missing_items};
use crate::generation::{Generation, GenerationView, backend_names, list_or_empty};

verus! {

/// The changes that one backend must make.
pub struct BackendChange {
    pub name: String,
    /// Items to install, in the order of the current generation.
    pub install: Vec<String>,
    /// Items to remove, in the order of the built generation.
    pub remove: Vec<String>,
}

/// Whether `r` names each backend of `built` or `current` once, with the
/// items that it must install and remove.
pub open spec fn is_build_plan(r: Seq<BackendChange>, built: GenerationView, current: GenerationView) -> bool {
    &&& forall|i: int, j: int| 0 <= i < j < r.len() ==> r[i].name@ != r[j].name@
    &&& forall|i: int| #![trigger r[i]]
        0 <= i < r.len() ==> {
            let n = r[i].name@;
            &&& built.managers.dom().contains(n) || current.managers.dom().contains(n)
            &&& views(r[i].install@) == missing_from(
                list_or_empty(current.managers, n),
                list_or_empty(built.managers, n),
            )
            &&& views(r[i].remove@) == missing_from(
                list_or_empty(built.managers, n),
                list_or_empty(current.managers, n),
            )
        }
    &&& forall|k: Seq<char>|
        built.managers.dom().contains(k) || current.managers.dom().contains(k) ==> exists|i: int|
            0 <= i < r.len() && #[trigger] r[i].name@ == k
}

/// What each backend must install and remove to go from `built` to
/// `current`. For a first build, `built` is the empty generation.
pub fn plan_build(built: &Generation, current: &Generation) -> (r: Vec<BackendChange>)
    ensures
        is_build_plan(r@, built@, current@),
{
    let names = backend_names(built, current);
    let mut out: Vec<BackendChange> = Vec::new();
    let mut i: usize = 0;
    while i < names.len()
        invariant
            i <= names.len(),
            views(names@).no_duplicates(),
            forall|k: Seq<char>|
                views(names@).contains(k) <==> (built@.managers.dom().contains(k)
                    || current@.managers.dom().contains(k)),
            out@.len() == i,
            forall|x: int| #![trigger out@[x]]
                0 <= x < i ==> out@[x].name@ == names@[x]@ && views(out@[x].install@) == missing_from(
                    list_or_empty(current@.managers, out@[x].name@),
                    list_or_empty(built@.managers, out@[x].name@),
                ) && views(out@[x].remove@) == missing_from(
                    list_or_empty(built@.managers, out@[x].name@),
                    list_or_empty(current@.managers, out@[x].name@),
                ),
        decreases names.len() - i,
    {
        let before = built.items_or_empty(&names[i]);
        let after = current.items_or_empty(&names[i]);
        let install = missing_items(after.as_slice(), before.as_slice());
        let remove = missing_items(before.as_slice(), after.as_slice());
        out.push(BackendChange { name: names[i].clone(), install, remove });
        i = i + 1;
    }
    proof {
        assert forall|x: int, y: int| 0 <= x < y < out@.len() implies out@[x].name@ != out@[y].name@ by {
            assert(views(names@)[x] != views(names@)[y]);
        }
        assert forall|x: int| #![trigger out@[x]] 0 <= x < out@.len() implies (built@.managers.dom().contains(
            out@[x].name@,
        ) || current@.managers.dom().contains(out@[x].name@)) by {
            assert(views(names@)[x] == out@[x].name@);
            assert(views(names@).contains(out@[x].name@));
        }
        assert forall|k: Seq<char>|
            built@.managers.dom().contains(k) || current@.managers.dom().contains(k) implies exists|i: int|
                0 <= i < out@.len() && #[trigger] out@[i].name@ == k by {
            assert(views(names@).contains(k));
            let x = choose|x: int| 0 <= x < views(names@).len() && views(names@)[x] == k;
            assert(out@[x].name@ == k);
        }
    }
    out
}

} // verus!
