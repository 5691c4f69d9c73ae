//! Cycle detection on a small directed graph given as adjacency lists.

use vstd::prelude::*;

verus! {

/// The adjacency lists as sequences.
pub open spec fn adj_view(adj: Seq<Vec<usize>>) -> Seq<Seq<usize>> {
    adj.map_values(|v: Vec<usize>| v@)
}

/// Whether there is an edge from `u` to `v`.
pub open spec fn edge(adj: Seq<Seq<usize>>, u: int, v: int) -> bool {
    0 <= u < adj.len() && 0 <= v < adj.len() && adj[u].contains(v as usize)
}

/// Whether `rank` numbers the nodes so that every edge goes to a higher rank.
pub open spec fn ranks(adj: Seq<Seq<usize>>, rank: Seq<int>) -> bool {
    &&& rank.len() == adj.len()
    &&& forall|u: int, v: int| #[trigger] edge(adj, u, v) ==> rank[u] < rank[v]
}

/// Whether the graph has no cycle: some ranking orders every edge.
pub open spec fn acyclic(adj: Seq<Seq<usize>>) -> bool {
    exists|rank: Seq<int>| ranks(adj, rank)
}

/// Whether every edge ends at a node of the graph.
pub open spec fn well_formed(adj: Seq<Seq<usize>>) -> bool {
    forall|u: int, k: int| 0 <= u < adj.len() && 0 <= k < adj[u].len() ==> adj[u][k] < adj.len()
}

/// Whether some node still present has an edge to `x`.
pub open spec fn live_pred(adj: Seq<Seq<usize>>, removed: Seq<bool>, x: int) -> bool {
    exists|u: int| 0 <= u < adj.len() && !removed[u] && #[trigger] edge(adj, u, x)
}

/// How many of the nodes are not yet removed.
pub open spec fn live_count(removed: Seq<bool>) -> nat
    decreases removed.len(),
{
    if removed.len() == 0 {
        0
    } else {
        live_count(removed.drop_last()) + if removed.last() {
            0nat
        } else {
            1nat
        }
    }
}

proof fn lemma_live_count_remove(removed: Seq<bool>, v: int)
    requires
        0 <= v < removed.len(),
        !removed[v],
    ensures
        live_count(removed.update(v, true)) + 1 == live_count(removed),
    decreases removed.len(),
{
    let r2 = removed.update(v, true);
    if v == removed.len() - 1 {
        assert(r2.drop_last() =~= removed.drop_last());
    } else {
        assert(r2.drop_last() =~= removed.drop_last().update(v, true));
        lemma_live_count_remove(removed.drop_last(), v);
    }
}

proof fn lemma_live_count_all(removed: Seq<bool>)
    requires
        forall|x: int| 0 <= x < removed.len() ==> !removed[x],
    ensures
        live_count(removed) == removed.len(),
    decreases removed.len(),
{
    if removed.len() > 0 {
        lemma_live_count_all(removed.drop_last());
    }
}

proof fn lemma_min_live(removed: Seq<bool>, rank: Seq<int>, i: int)
    requires
        rank.len() == removed.len(),
        0 <= i <= removed.len(),
        exists|w: int| 0 <= w < i && !removed[w],
    ensures
        exists|m: int|
            0 <= m < i && !removed[m] && forall|x: int| 0 <= x < i && !removed[x] ==> rank[m] <= rank[x],
    decreases i,
{
    if exists|w: int| 0 <= w < i - 1 && !removed[w] {
        lemma_min_live(removed, rank, i - 1);
        let m = choose|m: int|
            0 <= m < i - 1 && !removed[m] && forall|x: int| 0 <= x < i - 1 && !removed[x] ==> rank[m] <= rank[x];
        if !removed[i - 1] && rank[i - 1] < rank[m] {
            assert forall|x: int| 0 <= x < i && !removed[x] implies rank[i - 1] <= rank[x] by {
                if x < i - 1 {
                    assert(rank[m] <= rank[x]);
                }
            }
        } else {
            assert forall|x: int| 0 <= x < i && !removed[x] implies rank[m] <= rank[x] by {}
        }
    } else {
        assert(!removed[i - 1]);
        assert forall|x: int| 0 <= x < i && !removed[x] implies rank[i - 1] <= rank[x] by {
            assert(x == i - 1);
        }
    }
}

/// Whether some node not yet removed has an edge to `v`.
fn has_live_pred(adj: &Vec<Vec<usize>>, removed: &Vec<bool>, v: usize) -> (r: bool)
    requires
        removed@.len() == adj@.len(),
        v < adj@.len(),
    ensures
        r == exists|u: int| 0 <= u < adj@.len() && !removed@[u] && #[trigger] edge(adj_view(adj@), u, v as int),
{
    let ghost a = adj_view(adj@);
    let mut u: usize = 0;
    while u < adj.len()
        invariant
            u <= adj.len(),
            v < adj@.len(),
            a == adj_view(adj@),
            removed@.len() == adj@.len(),
            forall|x: int| 0 <= x < u && !removed@[x] ==> !#[trigger] edge(a, x, v as int),
        decreases adj.len() - u,
    {
        if !removed[u] {
            let list = &adj[u];
            assert(a[u as int] == list@);
            let mut k: usize = 0;
            while k < list.len()
                invariant
                    k <= list.len(),
                    removed@.len() == adj@.len(),
                    !removed@[u as int],
                    a == adj_view(adj@),
                    u < adj@.len(),
                    v < adj@.len(),
                    a[u as int] == list@,
                    forall|y: int| 0 <= y < k ==> list@[y] != v,
                decreases list.len() - k,
            {
                if list[k] == v {
                    assert(a[u as int][k as int] == v);
                    assert(edge(a, u as int, v as int));
                    assert(0 <= u < adj@.len() && !removed@[u as int] && edge(a, u as int, v as int));
                    return true;
                }
                k = k + 1;
            }
            assert(!a[u as int].contains(v)) by {
                if a[u as int].contains(v) {
                    let y = choose|y: int| 0 <= y < list@.len() && list@[y] == v;
                }
            }
        }
        u = u + 1;
    }
    false
}

/// A node still present with no edge from a node still present, if any.
fn find_source(adj: &Vec<Vec<usize>>, removed: &Vec<bool>) -> (r: Option<usize>)
    requires
        removed@.len() == adj@.len(),
    ensures
        r is Some ==> r->0 < adj@.len() && !removed@[r->0 as int] && !exists|u: int|
            0 <= u < adj@.len() && !removed@[u] && #[trigger] edge(adj_view(adj@), u, r->0 as int),
        r is None ==> forall|x: int| 0 <= x < adj@.len() ==> removed@[x] || #[trigger] live_pred(adj_view(adj@), removed@, x),
{
    let n = adj.len();
    let mut v: usize = 0;
    while v < n
        invariant
            v <= n,
            removed@.len() == n,
            n == adj@.len(),
            forall|x: int| 0 <= x < v ==> removed@[x] || #[trigger] live_pred(adj_view(adj@), removed@, x),
        decreases n - v,
    {
        if !removed[v] && !has_live_pred(adj, removed, v) {
            return Some(v);
        }
        v = v + 1;
    }
    None
}

/// Whether some node is still present.
fn any_live(removed: &Vec<bool>) -> (r: bool)
    ensures
        r == exists|x: int| 0 <= x < removed@.len() && !removed@[x],
{
    let mut w: usize = 0;
    while w < removed.len()
        invariant
            w <= removed.len(),
            forall|x: int| 0 <= x < w ==> removed@[x],
        decreases removed.len() - w,
    {
        if !removed[w] {
            return true;
        }
        w = w + 1;
    }
    false
}

proof fn lemma_stuck_is_cyclic(a: Seq<Seq<usize>>, removed: Seq<bool>)
    requires
        removed.len() == a.len(),
        forall|x: int| 0 <= x < a.len() ==> removed[x] || #[trigger] live_pred(a, removed, x),
        exists|x: int| 0 <= x < removed.len() && !removed[x],
    ensures
        !acyclic(a),
{
    if acyclic(a) {
        let rk = choose|rk: Seq<int>| ranks(a, rk);
        lemma_min_live(removed, rk, a.len() as int);
        let m = choose|m: int|
            0 <= m < a.len() && !removed[m] && forall|x: int|
                0 <= x < a.len() && !removed[x] ==> rk[m] <= rk[x];
        assert(removed[m] || live_pred(a, removed, m));
        let u = choose|u: int| 0 <= u < a.len() && !removed[u] && #[trigger] edge(a, u, m);
        assert(rk[u] < rk[m]);
        assert(rk[m] <= rk[u]);
    }
}

/// Whether the graph has a cycle: nodes are removed while some node has no
/// edge from a node still present; a cycle is what is left when none has.
pub fn has_cycle(adj: &Vec<Vec<usize>>) -> (r: bool)
    requires
        well_formed(adj_view(adj@)),
    ensures
        r == !acyclic(adj_view(adj@)),
{
    let ghost a = adj_view(adj@);
    let n = adj.len();
    let mut removed: Vec<bool> = Vec::new();
    let mut i: usize = 0;
    while i < n
        invariant
            i <= n,
            removed@.len() == i,
            forall|x: int| 0 <= x < i ==> !removed@[x],
        decreases n - i,
    {
        removed.push(false);
        i = i + 1;
    }
    let ghost mut rank: Seq<int> = Seq::new(n as nat, |x: int| 0);
    let mut count: usize = 0;
    proof {
        lemma_live_count_all(removed@);
    }
    loop
        invariant
            a == adj_view(adj@),
            n == adj@.len(),
            removed@.len() == n,
            rank.len() == n,
            count <= n,
            live_count(removed@) + count == n,
            forall|x: int| 0 <= x < n && removed@[x] ==> rank[x] < count,
            forall|u: int, v: int| #[trigger] edge(a, u, v) && removed@[v] ==> removed@[u] && rank[u] < rank[v],
        decreases live_count(removed@),
    {
        match find_source(adj, &removed) {
            None => {
                let live = any_live(&removed);
                proof {
                    if live {
                        lemma_stuck_is_cyclic(a, removed@);
                    } else {
                        assert(ranks(a, rank));
                    }
                }
                return live;
            },
            Some(v) => {
                let ghost before = removed@;
                proof {
                    lemma_live_count_remove(before, v as int);
                }
                removed.set(v, true);
                proof {
                    rank = rank.update(v as int, count as int);
                    assert forall|u: int, x: int| #[trigger] edge(a, u, x) && removed@[x] implies removed@[u]
                        && rank[u] < rank[x] by {
                        if x == v {
                            assert(before[u]);
                        } else {
                            assert(before[x]);
                        }
                    }
                }
                count = count + 1;
            },
        }
    }
}

} // verus!
