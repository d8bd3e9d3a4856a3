//! Entry points: the representatives of strongly connected components that
//! no other component points into.
use vstd::prelude::*;

use super::reach::{
    adjacency_view, has_edge, lemma_reaches_edge, lemma_reaches_in_range, lemma_reaches_refl,
    lemma_reaches_trans, lemma_reversed_reaches, reachable_from, reaches, reversed, same_scc,
    well_formed, Adjacency,
};
use super::{edge_ends, id_index, index_of_id, lemma_id_index, Edge, Node};
use crate::sort::{sort_seq, stable_sort, SortKey};

verus! {

// ---------------------------------------------------------------------
// The graph an edge list describes.
// ---------------------------------------------------------------------

/// The adjacency list of `n` nodes with edges `ends` (by position), each
/// edge recorded under its source (or, `reverse`, under its target)
/// together with its own index, in edge order.
pub open spec fn build_adjacency(n: nat, ends: Seq<Option<(int, int)>>, reverse: bool) -> Adjacency
    decreases ends.len(),
{
    if ends.len() == 0 {
        Seq::new(n, |i: int| Seq::<(usize, usize)>::empty())
    } else {
        let a = build_adjacency(n, ends.drop_last(), reverse);
        let k = (ends.len() - 1) as usize;
        match ends.last() {
            Some((x, y)) => if reverse {
                a.update(y, a[y].push((x as usize, k)))
            } else {
                a.update(x, a[x].push((y as usize, k)))
            },
            None => a,
        }
    }
}

/// Every edge end names a node among `0..n`.
pub open spec fn ends_in_range(n: nat, ends: Seq<Option<(int, int)>>) -> bool {
    forall|k: int|
        0 <= k < ends.len() ==> (#[trigger] ends[k] matches Some((x, y)) ==> 0 <= x < n && 0 <= y
            < n)
}

pub open spec fn all_edge_ends(nodes: Seq<Node>, edges: Seq<Edge>) -> Seq<Option<(int, int)>> {
    edges.map_values(|e: Edge| edge_ends(nodes, e))
}

/// The graph over `nodes` that `edges` describe; edges naming an unknown
/// id are left out.
pub open spec fn graph_of(nodes: Seq<Node>, edges: Seq<Edge>) -> Adjacency {
    build_adjacency(nodes.len(), all_edge_ends(nodes, edges), false)
}

pub proof fn lemma_build_adjacency(n: nat, ends: Seq<Option<(int, int)>>, reverse: bool)
    requires
        n <= usize::MAX,
        ends.len() <= usize::MAX,
        ends_in_range(n, ends),
    ensures
        build_adjacency(n, ends, reverse).len() == n,
        well_formed(build_adjacency(n, ends, reverse)),
        forall|u: int, j: int|
            0 <= u < n && 0 <= j < build_adjacency(n, ends, reverse)[u].len() ==> (
            #[trigger] build_adjacency(n, ends, reverse)[u][j]).1 < ends.len(),
        forall|u: int|
            0 <= u < n ==> (#[trigger] build_adjacency(n, ends, reverse)[u]).len() <= ends.len(),
        forall|u: int, v: int|
            #![trigger has_edge(build_adjacency(n, ends, reverse), u, v)]
            has_edge(build_adjacency(n, ends, reverse), u, v) <==> exists|k: int|
                0 <= k < ends.len() && #[trigger] ends[k] == (if reverse {
                    Some((v, u))
                } else {
                    Some((u, v))
                }),
    decreases ends.len(),
{
    let g = build_adjacency(n, ends, reverse);
    if ends.len() > 0 {
        let init = ends.drop_last();
        assert(ends_in_range(n, init)) by {
            assert forall|k: int| 0 <= k < init.len() implies (#[trigger] init[k] matches Some(
                (x, y),
            ) ==> 0 <= x < n && 0 <= y < n) by {
                assert(init[k] == ends[k]);
            }
        }
        lemma_build_adjacency(n, init, reverse);
        let a = build_adjacency(n, init, reverse);
        let last = ends.len() - 1;
        assert(ends[last] == ends.last());
        assert forall|u: int, v: int| has_edge(g, u, v) <==> exists|k: int|
            0 <= k < ends.len() && #[trigger] ends[k] == (if reverse {
                Some((v, u))
            } else {
                Some((u, v))
            }) by {
            let want = if reverse {
                Some((v, u))
            } else {
                Some((u, v))
            };
            match ends.last() {
                None => {
                    assert(g == a);
                    if has_edge(a, u, v) {
                        let k = choose|k: int| 0 <= k < init.len() && #[trigger] init[k] == want;
                        assert(ends[k] == want);
                    }
                    if exists|k: int| 0 <= k < ends.len() && #[trigger] ends[k] == want {
                        let k = choose|k: int| 0 <= k < ends.len() && #[trigger] ends[k] == want;
                        if k < last {
                            assert(init[k] == want);
                        }
                    }
                },
                Some((x, y)) => {
                    let row = if reverse {
                        y
                    } else {
                        x
                    };
                    let tgt = if reverse {
                        x
                    } else {
                        y
                    };
                    assert(0 <= x < n && 0 <= y < n);
                    assert(g == a.update(row, a[row].push((tgt as usize, last as usize))));
                    if has_edge(g, u, v) {
                        let j = choose|j: int| 0 <= j < g[u].len() && (#[trigger] g[u][j]).0 == v;
                        if u == row && j == a[u].len() {
                            assert(g[u][j] == (tgt as usize, last as usize));
                            assert(ends[last] == want);
                        } else {
                            assert(g[u][j] == a[u][j]);
                            assert(has_edge(a, u, v));
                            let k = choose|k: int| 0 <= k < init.len() && #[trigger] init[k] == want;
                            assert(ends[k] == want);
                        }
                    }
                    if exists|k: int| 0 <= k < ends.len() && #[trigger] ends[k] == want {
                        let k = choose|k: int| 0 <= k < ends.len() && #[trigger] ends[k] == want;
                        if k == last {
                            assert(u == row && v == tgt);
                            let j = a[u].len() as int;
                            assert(g[u] == a[u].push((tgt as usize, last as usize)));
                            assert(g[u][j].0 == v);
                        } else {
                            assert(init[k] == want);
                            assert(has_edge(a, u, v));
                            let j = choose|j: int| 0 <= j < a[u].len() && (#[trigger] a[u][j]).0 == v;
                            assert(g[u][j] == a[u][j]);
                        }
                    }
                },
            }
        }
        assert forall|u: int, j: int| 0 <= u < g.len() && 0 <= j < g[u].len() implies (
        #[trigger] g[u][j]).0 < g.len() && g[u][j].1 < ends.len() by {
            if j < a[u].len() {
                assert(g[u][j] == a[u][j]);
            }
        }
    }
}

/// Each adjacency entry records the edge it came from.
pub proof fn lemma_build_adjacency_entry(n: nat, ends: Seq<Option<(int, int)>>, u: int, j: int)
    requires
        n <= usize::MAX,
        ends.len() <= usize::MAX,
        ends_in_range(n, ends),
        0 <= u < n,
        0 <= j < build_adjacency(n, ends, false)[u].len(),
    ensures
        ({
            let (v, k) = build_adjacency(n, ends, false)[u][j];
            0 <= k < ends.len() && ends[k as int] == Some((u, v as int))
        }),
    decreases ends.len(),
{
    lemma_build_adjacency(n, ends, false);
    let g = build_adjacency(n, ends, false);
    let init = ends.drop_last();
    assert(ends_in_range(n, init)) by {
        assert forall|k: int| 0 <= k < init.len() implies (#[trigger] init[k] matches Some((x, y))
            ==> 0 <= x < n && 0 <= y < n) by {
            assert(init[k] == ends[k]);
        }
    }
    lemma_build_adjacency(n, init, false);
    let a = build_adjacency(n, init, false);
    let last = ends.len() - 1;
    assert(ends[last] == ends.last());
    match ends.last() {
        None => {
            lemma_build_adjacency_entry(n, init, u, j);
            let (v, k) = a[u][j];
            assert(ends[k as int] == init[k as int]);
        },
        Some((x, y)) => {
            if u == x && j == a[u].len() {
                assert(g[u][j] == (y as usize, last as usize));
            } else {
                assert(g[u][j] == a[u][j]);
                lemma_build_adjacency_entry(n, init, u, j);
                let (v, k) = a[u][j];
                assert(ends[k as int] == init[k as int]);
            }
        },
    }
}

pub proof fn lemma_graph_reversed(n: nat, ends: Seq<Option<(int, int)>>)
    requires
        n <= usize::MAX,
        ends.len() <= usize::MAX,
        ends_in_range(n, ends),
    ensures
        reversed(build_adjacency(n, ends, false), build_adjacency(n, ends, true)),
{
    lemma_build_adjacency(n, ends, false);
    lemma_build_adjacency(n, ends, true);
    let g = build_adjacency(n, ends, false);
    let r = build_adjacency(n, ends, true);
    assert forall|u: int, v: int| has_edge(r, u, v) <==> has_edge(g, v, u) by {
        if has_edge(r, u, v) {
            let k = choose|k: int| 0 <= k < ends.len() && #[trigger] ends[k] == Some((v, u));
        }
        if has_edge(g, v, u) {
            let k = choose|k: int| 0 <= k < ends.len() && #[trigger] ends[k] == Some((v, u));
        }
    }
}

pub proof fn lemma_all_edge_ends_in_range_pub(nodes: Seq<Node>, edges: Seq<Edge>)
    ensures
        ends_in_range(nodes.len(), all_edge_ends(nodes, edges)),
{
    lemma_all_edge_ends_in_range(nodes, edges);
}

proof fn lemma_all_edge_ends_in_range(nodes: Seq<Node>, edges: Seq<Edge>)
    ensures
        ends_in_range(nodes.len(), all_edge_ends(nodes, edges)),
{
    assert forall|k: int| 0 <= k < edges.len() implies (#[trigger] all_edge_ends(nodes, edges)[k] matches Some(
        (x, y),
    ) ==> 0 <= x < nodes.len() && 0 <= y < nodes.len()) by {
        lemma_id_index(nodes, edges[k].from@);
        lemma_id_index(nodes, edges[k].to@);
    }
}

/// Builds the adjacency list (`reverse` = by target) of `n` nodes from the
/// edges' node positions.
pub fn adjacency_from_ends(n: usize, ends: &Vec<Option<(usize, usize)>>, reverse: bool) -> (adj: Vec<
    Vec<(usize, usize)>,
>)
    requires
        forall|k: int|
            0 <= k < ends@.len() ==> (#[trigger] ends@[k] matches Some((x, y)) ==> x < n && y < n),
    ensures
        adjacency_view(adj@) == build_adjacency(n as nat, ends_view(ends@), reverse),
        adj@.len() == n,
{
    let mut adj: Vec<Vec<(usize, usize)>> = Vec::new();
    let mut i: usize = 0;
    while i < n
        invariant
            i <= n,
            adj@.len() == i,
            forall|q: int| 0 <= q < i ==> (#[trigger] adj@[q])@ == Seq::<(usize, usize)>::empty(),
        decreases n - i,
    {
        adj.push(Vec::new());
        i += 1;
    }
    assert(adjacency_view(adj@) =~= build_adjacency(n as nat, ends_view(ends@).take(0), reverse));
    let mut k: usize = 0;
    while k < ends.len()
        invariant
            k <= ends@.len(),
            adj@.len() == n,
            forall|q: int|
                0 <= q < ends@.len() ==> (#[trigger] ends@[q] matches Some((x, y)) ==> x < n && y
                    < n),
            adjacency_view(adj@) == build_adjacency(
                n as nat,
                ends_view(ends@).take(k as int),
                reverse,
            ),
        decreases ends.len() - k,
    {
        let ghost ev = ends_view(ends@);
        assert(ev.take(k + 1).drop_last() =~= ev.take(k as int));
        assert(ev.take(k + 1).last() == ev[k as int]);
        if let Some((x, y)) = ends[k] {
            let (row, target) = if reverse {
                (y, x)
            } else {
                (x, y)
            };
            adj[row].push((target, k));
            assert(adjacency_view(adj@) =~= build_adjacency(
                n as nat,
                ev.take(k + 1),
                reverse,
            ));
        } else {
            assert(adjacency_view(adj@) =~= build_adjacency(
                n as nat,
                ev.take(k + 1),
                reverse,
            ));
        }
        k += 1;
    }
    assert(ends_view(ends@).take(k as int) =~= ends_view(ends@));
    adj
}

pub open spec fn ends_view(ends: Seq<Option<(usize, usize)>>) -> Seq<Option<(int, int)>> {
    ends.map_values(
        |e: Option<(usize, usize)>|
            match e {
                Some((x, y)) => Some((x as int, y as int)),
                None => None,
            },
    )
}

/// The node positions of every edge (`None` for an edge naming an id
/// that no node has).
pub fn edge_positions(nodes: &[Node], edges: &[Edge]) -> (ends: Vec<Option<(usize, usize)>>)
    ensures
        ends_view(ends@) == all_edge_ends(nodes@, edges@),
        forall|k: int|
            0 <= k < ends@.len() ==> (#[trigger] ends@[k] matches Some((x, y)) ==> x < nodes@.len()
                && y < nodes@.len()),
{
    let mut ends: Vec<Option<(usize, usize)>> = Vec::new();
    let mut k: usize = 0;
    while k < edges.len()
        invariant
            k <= edges@.len(),
            ends@.len() == k,
            ends_view(ends@) == all_edge_ends(nodes@, edges@).take(k as int),
            forall|q: int|
                0 <= q < ends@.len() ==> (#[trigger] ends@[q] matches Some((x, y)) ==> x
                    < nodes@.len() && y < nodes@.len()),
        decreases edges.len() - k,
    {
        let from = index_of_id(nodes, &edges[k].from);
        let to = index_of_id(nodes, &edges[k].to);
        proof {
            lemma_id_index(nodes@, edges@[k as int].from@);
            lemma_id_index(nodes@, edges@[k as int].to@);
        }
        let e = match (from, to) {
            (Some(a), Some(b)) => Some((a, b)),
            _ => None,
        };
        let ghost before = ends@;
        ends.push(e);
        assert(all_edge_ends(nodes@, edges@)[k as int] == edge_ends(nodes@, edges@[k as int]));
        assert(ends@[k as int] == e);
        assert(edge_ends(nodes@, edges@[k as int]) == match e {
            Some((x, y)) => Some((x as int, y as int)),
            None => None,
        });
        assert(ends_view(ends@)[k as int] == all_edge_ends(nodes@, edges@)[k as int]);
        assert(ends_view(ends@) =~= ends_view(before).push(ends_view(ends@)[k as int]));
        k += 1;
        assert(ends_view(ends@) =~= all_edge_ends(nodes@, edges@).take(k as int));
    }
    assert(all_edge_ends(nodes@, edges@).take(k as int) =~= all_edge_ends(nodes@, edges@));
    ends
}

// ---------------------------------------------------------------------
// Components.
// ---------------------------------------------------------------------

/// The first node, searching from `k`, that shares `v`'s component.
pub open spec fn scc_min_from(g: Adjacency, v: int, k: int) -> int
    decreases v - k,
{
    if k >= v {
        v
    } else if same_scc(g, k, v) {
        k
    } else {
        scc_min_from(g, v, k + 1)
    }
}

/// The first node (in index order) of `v`'s strongly connected component:
/// the component's representative.
pub open spec fn scc_min(g: Adjacency, v: int) -> int {
    scc_min_from(g, v, 0)
}

proof fn lemma_scc_min_from(g: Adjacency, v: int, k: int)
    requires
        0 <= k,
        0 <= v < g.len(),
        forall|w: int| 0 <= w < k ==> !same_scc(g, w, v),
    ensures
        0 <= scc_min_from(g, v, k) <= v,
        same_scc(g, scc_min_from(g, v, k), v),
        forall|w: int| 0 <= w < scc_min_from(g, v, k) ==> !same_scc(g, w, v),
    decreases v - k,
{
    if k >= v {
        lemma_reaches_refl(g, v);
    } else if same_scc(g, k, v) {
    } else {
        lemma_scc_min_from(g, v, k + 1);
    }
}

/// `scc_min(g, v)` is the least node in `v`'s component.
pub proof fn lemma_scc_min(g: Adjacency, v: int)
    requires
        0 <= v < g.len(),
    ensures
        0 <= scc_min(g, v) <= v,
        same_scc(g, scc_min(g, v), v),
        forall|w: int| 0 <= w < scc_min(g, v) ==> !same_scc(g, w, v),
{
    lemma_scc_min_from(g, v, 0);
}

/// Nodes of one component share their representative.
pub proof fn lemma_scc_min_same(g: Adjacency, u: int, v: int)
    requires
        same_scc(g, u, v),
    ensures
        scc_min(g, u) == scc_min(g, v),
{
    lemma_reaches_in_range(g, u, v);
    lemma_scc_min(g, u);
    lemma_scc_min(g, v);
    let a = scc_min(g, u);
    let b = scc_min(g, v);
    lemma_reaches_trans(g, a, u, v);
    lemma_reaches_trans(g, v, u, a);
    lemma_reaches_trans(g, b, v, u);
    lemma_reaches_trans(g, u, v, b);
    if a < b {
        assert(!same_scc(g, a, v));
    } else if b < a {
        assert(!same_scc(g, b, u));
    }
}

/// Some edge enters `r`'s component from outside it.
pub open spec fn scc_has_incoming(g: Adjacency, r: int) -> bool {
    exists|u: int, v: int|
        #![trigger has_edge(g, u, v), same_scc(g, v, r)]
        has_edge(g, u, v) && same_scc(g, v, r) && !same_scc(g, u, r)
}

/// `r` is an entry point: the first node of a component that no edge
/// enters from outside.
pub open spec fn is_root(g: Adjacency, r: int) -> bool {
    0 <= r < g.len() && scc_min(g, r) == r && !scc_has_incoming(g, r)
}

/// Labels every node with its component's representative.
fn scc_labels(adj: &Vec<Vec<(usize, usize)>>, radj: &Vec<Vec<(usize, usize)>>) -> (labels: Vec<
    usize,
>)
    requires
        well_formed(adjacency_view(adj@)),
        well_formed(adjacency_view(radj@)),
        reversed(adjacency_view(adj@), adjacency_view(radj@)),
        adj@.len() == radj@.len(),
    ensures
        labels@.len() == adj@.len(),
        forall|v: int|
            0 <= v < adj@.len() ==> #[trigger] labels@[v] as int == scc_min(
                adjacency_view(adj@),
                v,
            ),
{
    let ghost g = adjacency_view(adj@);
    let ghost r = adjacency_view(radj@);
    let n = adj.len();
    let mut labels: Vec<usize> = vec![n; n];
    proof {
        assert forall|v: int| 0 <= v < n implies scc_min(g, v) >= 0 by {
            lemma_scc_min(g, v);
        }
    }
    let mut s: usize = 0;
    while s < n
        invariant
            g == adjacency_view(adj@),
            r == adjacency_view(radj@),
            well_formed(g),
            well_formed(r),
            reversed(g, r),
            n == adj@.len(),
            n == radj@.len(),
            s <= n,
            labels@.len() == n,
            forall|v: int|
                0 <= v < n ==> #[trigger] labels@[v] == (if scc_min(g, v) < s {
                    scc_min(g, v) as usize
                } else {
                    n
                }),
        decreases n - s,
    {
        proof {
            lemma_scc_min(g, s as int);
        }
        if labels[s] == n {
            assert(scc_min(g, s as int) == s);
            let fwd = reachable_from(adj, s);
            let bwd = reachable_from(radj, s);
            let mut v: usize = 0;
            while v < n
                invariant
                    g == adjacency_view(adj@),
                    r == adjacency_view(radj@),
                    reversed(g, r),
                    n == adj@.len(),
                    s < n,
                    v <= n,
                    scc_min(g, s as int) == s,
                    labels@.len() == n,
                    fwd@.len() == n,
                    bwd@.len() == n,
                    forall|w: int| 0 <= w < n ==> fwd@[w] == reaches(g, s as int, w),
                    forall|w: int| 0 <= w < n ==> bwd@[w] == reaches(r, s as int, w),
                    forall|w: int|
                        0 <= w < n ==> #[trigger] labels@[w] == (if scc_min(g, w) < s || (w < v
                            && scc_min(g, w) == s) {
                            scc_min(g, w) as usize
                        } else {
                            n
                        }),
                decreases n - v,
            {
                proof {
                    lemma_scc_min(g, v as int);
                    if bwd@[v as int] {
                        lemma_reversed_reaches(g, r, s as int, v as int);
                    }
                    if reaches(g, v as int, s as int) {
                        assert(reversed(r, g)) by {
                            assert forall|a: int, b: int| has_edge(g, a, b) <==> has_edge(
                                r,
                                b,
                                a,
                            ) by {}
                        }
                        lemma_reversed_reaches(r, g, v as int, s as int);
                    }
                    if same_scc(g, s as int, v as int) {
                        lemma_scc_min_same(g, s as int, v as int);
                    }
                    if scc_min(g, v as int) == s {
                        lemma_scc_min(g, v as int);
                    }
                }
                if fwd[v] && bwd[v] {
                    labels.set(v, s);
                }
                v += 1;
            }
        } else {
            proof {
                assert forall|w: int| 0 <= w < n implies scc_min(g, w) != s by {
                    lemma_scc_min(g, w);
                    if scc_min(g, w) == s {
                        lemma_scc_min_same(g, s as int, w);
                    }
                }
            }
        }
        s += 1;
    }
    proof {
        assert forall|v: int| 0 <= v < n implies scc_min(g, v) < n by {
            lemma_scc_min(g, v);
        }
    }
    labels
}

/// Among the edges leaving nodes before `u`, and the first `j` edges of
/// `u`, one goes from outside component `x` into it.
pub open spec fn incoming_before(g: Adjacency, x: int, u: int, j: int) -> bool {
    exists|a: int, q: int|
        #![trigger g[a][q]]
        (0 <= a < u && 0 <= q < g[a].len() || a == u && 0 <= q < j) && scc_min(g, g[a][q].0 as int)
            == x && scc_min(g, a) != x
}

proof fn lemma_incoming_before_step(g: Adjacency, x: int, u: int, j: int)
    requires
        0 <= u < g.len(),
        0 <= j < g[u].len(),
    ensures
        incoming_before(g, x, u, j + 1) == (incoming_before(g, x, u, j) || (scc_min(
            g,
            g[u][j].0 as int,
        ) == x && scc_min(g, u) != x)),
{
    if incoming_before(g, x, u, j + 1) {
        let (a, q) = choose|a: int, q: int|
            #![trigger g[a][q]]
            (0 <= a < u && 0 <= q < g[a].len() || a == u && 0 <= q < j + 1) && scc_min(
                g,
                g[a][q].0 as int,
            ) == x && scc_min(g, a) != x;
        if !(a == u && q == j) {
            assert(incoming_before(g, x, u, j));
        }
    }
    if scc_min(g, g[u][j].0 as int) == x && scc_min(g, u) != x {
        assert(incoming_before(g, x, u, j + 1)) by {
            let t = g[u][j];
        }
    }
}

proof fn lemma_incoming_before_row(g: Adjacency, x: int, u: int)
    requires
        0 <= u < g.len(),
    ensures
        incoming_before(g, x, u, g[u].len() as int) == incoming_before(g, x, u + 1, 0),
{
    if incoming_before(g, x, u + 1, 0) {
        let (a, q) = choose|a: int, q: int|
            #![trigger g[a][q]]
            (0 <= a < u + 1 && 0 <= q < g[a].len() || a == u + 1 && 0 <= q < 0) && scc_min(
                g,
                g[a][q].0 as int,
            ) == x && scc_min(g, a) != x;
        assert(incoming_before(g, x, u, g[u].len() as int));
    }
}

proof fn lemma_incoming_before_all(g: Adjacency, x: int)
    requires
        well_formed(g),
        0 <= x < g.len(),
        scc_min(g, x) == x,
    ensures
        incoming_before(g, x, g.len() as int, 0) == scc_has_incoming(g, x),
{
    let n = g.len() as int;
    if incoming_before(g, x, n, 0) {
        let (a, q) = choose|a: int, q: int|
            #![trigger g[a][q]]
            (0 <= a < n && 0 <= q < g[a].len() || a == n && 0 <= q < 0) && scc_min(
                g,
                g[a][q].0 as int,
            ) == x && scc_min(g, a) != x;
        let v = g[a][q].0 as int;
        assert(has_edge(g, a, v));
        lemma_scc_min(g, v);
        assert(same_scc(g, v, x));
        if same_scc(g, a, x) {
            lemma_scc_min_same(g, a, x);
        }
        assert(has_edge(g, a, v) && same_scc(g, v, x) && !same_scc(g, a, x));
    }
    if scc_has_incoming(g, x) {
        let (a, v) = choose|a: int, v: int|
            #![trigger has_edge(g, a, v), same_scc(g, v, x)]
            has_edge(g, a, v) && same_scc(g, v, x) && !same_scc(g, a, x);
        let q = choose|q: int| 0 <= q < g[a].len() && (#[trigger] g[a][q]).0 == v;
        lemma_scc_min_same(g, v, x);
        lemma_scc_min(g, a);
        if scc_min(g, a) == x {
            assert(same_scc(g, a, x));
        }
        assert(scc_min(g, g[a][q].0 as int) == x);
    }
}

/// For each representative, whether an edge enters its component from
/// outside.
fn incoming_flags(adj: &Vec<Vec<(usize, usize)>>, labels: &Vec<usize>) -> (flags: Vec<bool>)
    requires
        well_formed(adjacency_view(adj@)),
        labels@.len() == adj@.len(),
        forall|v: int|
            0 <= v < adj@.len() ==> #[trigger] labels@[v] as int == scc_min(
                adjacency_view(adj@),
                v,
            ),
    ensures
        flags@.len() == adj@.len(),
        forall|x: int|
            0 <= x < adj@.len() && scc_min(adjacency_view(adj@), x) == x ==> (#[trigger] flags@[x]
                == scc_has_incoming(adjacency_view(adj@), x)),
{
    let ghost g = adjacency_view(adj@);
    let n = adj.len();
    let mut flags: Vec<bool> = vec![false; n];
    let mut u: usize = 0;
    while u < n
        invariant
            g == adjacency_view(adj@),
            well_formed(g),
            n == adj@.len(),
            u <= n,
            labels@.len() == n,
            flags@.len() == n,
            forall|v: int| 0 <= v < n ==> #[trigger] labels@[v] as int == scc_min(g, v),
            forall|x: int| 0 <= x < n ==> #[trigger] flags@[x] == incoming_before(g, x, u as int, 0),
        decreases n - u,
    {
        let row = &adj[u];
        assert(row@ == g[u as int]);
        let mut j: usize = 0;
        while j < row.len()
            invariant
                g == adjacency_view(adj@),
                well_formed(g),
                n == adj@.len(),
                u < n,
                row@ == g[u as int],
                j <= row@.len(),
                labels@.len() == n,
                flags@.len() == n,
                forall|v: int| 0 <= v < n ==> #[trigger] labels@[v] as int == scc_min(g, v),
                forall|x: int|
                    0 <= x < n ==> #[trigger] flags@[x] == incoming_before(g, x, u as int, j as int),
            decreases row@.len() - j,
        {
            let v = row[j].0;
            assert(g[u as int][j as int] == row@[j as int]);
            proof {
                lemma_scc_min(g, v as int);
                lemma_scc_min(g, u as int);
            }
            let lv = labels[v];
            let lu = labels[u];
            let ghost old_flags = flags@;
            if lu != lv {
                flags.set(lv, true);
            }
            proof {
                assert forall|x: int| 0 <= x < n implies #[trigger] flags@[x] == incoming_before(
                    g,
                    x,
                    u as int,
                    j + 1,
                ) by {
                    lemma_incoming_before_step(g, x, u as int, j as int);
                }
            }
            j += 1;
        }
        proof {
            assert forall|x: int| 0 <= x < n implies #[trigger] flags@[x] == incoming_before(
                g,
                x,
                u + 1,
                0,
            ) by {
                lemma_incoming_before_row(g, x, u as int);
            }
        }
        u += 1;
    }
    proof {
        assert forall|x: int| 0 <= x < n && scc_min(g, x) == x implies (#[trigger] flags@[x]
            == scc_has_incoming(g, x)) by {
            lemma_incoming_before_all(g, x);
        }
    }
    flags
}

// ---------------------------------------------------------------------
// Roots.
// ---------------------------------------------------------------------

/// A root before the final ordering: its id and the node position that
/// id names, which it is sorted by.
pub struct RootCandidate {
    pub key: usize,
    pub id: String,
}

impl SortKey for RootCandidate {
    open spec fn key_le(self, other: Self) -> bool {
        self.key <= other.key
    }

    proof fn lemma_key_total(a: Self, b: Self) {
    }

    proof fn lemma_key_trans(a: Self, b: Self, c: Self) {
    }

    fn le(&self, other: &Self) -> (r: bool) {
        self.key <= other.key
    }
}

/// The roots among the first `k` nodes, in index order.
pub open spec fn root_candidates(nodes: Seq<Node>, g: Adjacency, k: int) -> Seq<RootCandidate>
    decreases k,
{
    if k <= 0 {
        seq![]
    } else {
        let prev = root_candidates(nodes, g, k - 1);
        if is_root(g, k - 1) {
            prev.push(
                RootCandidate {
                    key: id_index(nodes, nodes[k - 1].id@).unwrap() as usize,
                    id: nodes[k - 1].id,
                },
            )
        } else {
            prev
        }
    }
}

/// The entry points of the graph `edges` draw over `nodes`: the ids of its
/// roots, ordered by the position their id names.
pub open spec fn spec_find_roots(nodes: Seq<Node>, edges: Seq<Edge>) -> Seq<String> {
    if nodes.len() == 0 {
        seq![]
    } else {
        sort_seq(root_candidates(nodes, graph_of(nodes, edges), nodes.len() as int)).map_values(
            |c: RootCandidate| c.id,
        )
    }
}

/// Computes the entry points of the graph `edges` draw over `nodes`: the
/// first-in-source-order member of every strongly connected component
/// that no other component has an edge into, ordered by source position.
pub fn find_roots(nodes: &[Node], edges: &[Edge]) -> (roots: Vec<String>)
    ensures
        roots@ == spec_find_roots(nodes@, edges@),
{
    if nodes.len() == 0 {
        return Vec::new();
    }
    let n = nodes.len();
    let ends = edge_positions(nodes, edges);
    let adj = adjacency_from_ends(n, &ends, false);
    let radj = adjacency_from_ends(n, &ends, true);
    let ghost g = adjacency_view(adj@);
    proof {
        assert(ends_view(ends@).len() == ends.len());
        lemma_all_edge_ends_in_range(nodes@, edges@);
        lemma_build_adjacency(n as nat, ends_view(ends@), false);
        lemma_build_adjacency(n as nat, ends_view(ends@), true);
        lemma_graph_reversed(n as nat, ends_view(ends@));
        assert(g == graph_of(nodes@, edges@));
    }
    let labels = scc_labels(&adj, &radj);
    let flags = incoming_flags(&adj, &labels);

    let mut cands: Vec<RootCandidate> = Vec::new();
    let mut r: usize = 0;
    while r < n
        invariant
            n == nodes@.len(),
            g == graph_of(nodes@, edges@),
            g.len() == n,
            r <= n,
            labels@.len() == n,
            flags@.len() == n,
            forall|v: int| 0 <= v < n ==> #[trigger] labels@[v] as int == scc_min(g, v),
            forall|x: int|
                0 <= x < n && scc_min(g, x) == x ==> (#[trigger] flags@[x] == scc_has_incoming(g, x)),
            cands@ == root_candidates(nodes@, g, r as int),
        decreases n - r,
    {
        if labels[r] == r && !flags[r] {
            let key = index_of_id(nodes, &nodes[r].id);
            proof {
                lemma_id_index(nodes@, nodes@[r as int].id@);
            }
            let key = key.unwrap();
            cands.push(RootCandidate { key, id: nodes[r].id.clone() });
        }
        r += 1;
    }
    let sorted = stable_sort(cands);
    let mut roots: Vec<String> = Vec::new();
    let mut k: usize = 0;
    while k < sorted.len()
        invariant
            k <= sorted@.len(),
            roots@ == sorted@.take(k as int).map_values(|c: RootCandidate| c.id),
        decreases sorted.len() - k,
    {
        roots.push(sorted[k].id.clone());
        k += 1;
        assert(roots@ =~= sorted@.take(k as int).map_values(|c: RootCandidate| c.id));
    }
    assert(sorted@.take(k as int) =~= sorted@);
    roots
}


// ---------------------------------------------------------------------
// Laws.
// ---------------------------------------------------------------------

/// The nodes that reach `x`.
pub open spec fn ancestors(g: Adjacency, x: int) -> Set<int> {
    Set::new(|w: int| 0 <= w < g.len() && reaches(g, w, x))
}

proof fn lemma_ancestors_finite(g: Adjacency, x: int)
    ensures
        ancestors(g, x).finite(),
        ancestors(g, x).subset_of(vstd::set_lib::set_int_range(0, g.len() as int)),
{
    vstd::set_lib::lemma_int_range(0, g.len() as int);
    vstd::set_lib::lemma_len_subset(ancestors(g, x), vstd::set_lib::set_int_range(0, g.len() as int));
}

/// Walking edges backwards from `x` ends in a component that nothing
/// enters from outside.
proof fn lemma_source_component(g: Adjacency, x: int)
    requires
        well_formed(g),
        0 <= x < g.len(),
    ensures
        exists|y: int| 0 <= y < g.len() && #[trigger] reaches(g, y, x) && !scc_has_incoming(g, y),
    decreases ancestors(g, x).len(),
{
    lemma_reaches_refl(g, x);
    if !scc_has_incoming(g, x) {
        assert(reaches(g, x, x));
    } else {
        let (a, b) = choose|a: int, b: int|
            #![trigger has_edge(g, a, b), same_scc(g, b, x)]
            has_edge(g, a, b) && same_scc(g, b, x) && !same_scc(g, a, x);
        lemma_reaches_edge(g, a, b);
        lemma_reaches_trans(g, a, b, x);
        lemma_ancestors_finite(g, x);
        lemma_ancestors_finite(g, a);
        assert(ancestors(g, a).subset_of(ancestors(g, x))) by {
            assert forall|w: int| ancestors(g, a).contains(w) implies ancestors(g, x).contains(w) by {
                lemma_reaches_trans(g, w, a, x);
            }
        }
        assert(!ancestors(g, a).contains(x));
        assert(ancestors(g, x).contains(x));
        ancestors(g, a).lemma_subset_not_in_lt(ancestors(g, x), x);
        lemma_source_component(g, a);
        let y = choose|y: int| 0 <= y < g.len() && #[trigger] reaches(g, y, a) && !scc_has_incoming(g, y);
        lemma_reaches_trans(g, y, a, x);
    }
}

/// Components that share members share their incoming edges.
proof fn lemma_scc_has_incoming_same(g: Adjacency, y: int, r: int)
    requires
        same_scc(g, y, r),
    ensures
        scc_has_incoming(g, y) == scc_has_incoming(g, r),
{
    if scc_has_incoming(g, y) {
        let (a, b) = choose|a: int, b: int|
            #![trigger has_edge(g, a, b), same_scc(g, b, y)]
            has_edge(g, a, b) && same_scc(g, b, y) && !same_scc(g, a, y);
        lemma_reaches_trans(g, b, y, r);
        lemma_reaches_trans(g, r, y, b);
        if same_scc(g, a, r) {
            lemma_reaches_trans(g, a, r, y);
            lemma_reaches_trans(g, y, r, a);
        }
        assert(has_edge(g, a, b) && same_scc(g, b, r) && !same_scc(g, a, r));
    }
    if scc_has_incoming(g, r) {
        let (a, b) = choose|a: int, b: int|
            #![trigger has_edge(g, a, b), same_scc(g, b, r)]
            has_edge(g, a, b) && same_scc(g, b, r) && !same_scc(g, a, r);
        lemma_reaches_trans(g, b, r, y);
        lemma_reaches_trans(g, y, r, b);
        if same_scc(g, a, y) {
            lemma_reaches_trans(g, a, y, r);
            lemma_reaches_trans(g, r, y, a);
        }
        assert(has_edge(g, a, b) && same_scc(g, b, y) && !same_scc(g, a, y));
    }
}

/// Every node can be reached from some root, even when every node lies on
/// a cycle: walking the tree from the roots shows the whole graph.
pub proof fn law_every_node_reachable_from_a_root(g: Adjacency, v: int)
    requires
        well_formed(g),
        0 <= v < g.len(),
    ensures
        exists|r: int| #[trigger] is_root(g, r) && reaches(g, r, v),
{
    lemma_source_component(g, v);
    let y = choose|y: int| 0 <= y < g.len() && #[trigger] reaches(g, y, v) && !scc_has_incoming(g, y);
    lemma_scc_min(g, y);
    let r = scc_min(g, y);
    lemma_scc_min_same(g, r, y);
    lemma_scc_has_incoming_same(g, y, r);
    lemma_reaches_trans(g, r, y, v);
    assert(is_root(g, r) && reaches(g, r, v));
}

proof fn lemma_root_candidates_contain(nodes: Seq<Node>, g: Adjacency, k: int, r: int)
    requires
        0 <= r < k <= nodes.len(),
        is_root(g, r),
    ensures
        exists|i: int|
            0 <= i < root_candidates(nodes, g, k).len() && (#[trigger] root_candidates(
                nodes,
                g,
                k,
            )[i]).id == nodes[r].id,
    decreases k,
{
    if r < k - 1 {
        lemma_root_candidates_contain(nodes, g, k - 1, r);
        let i = choose|i: int|
            0 <= i < root_candidates(nodes, g, k - 1).len() && (#[trigger] root_candidates(
                nodes,
                g,
                k - 1,
            )[i]).id == nodes[r].id;
        assert(root_candidates(nodes, g, k)[i] == root_candidates(nodes, g, k - 1)[i]);
    } else {
        let i = root_candidates(nodes, g, k - 1).len() as int;
        assert(root_candidates(nodes, g, k)[i].id == nodes[r].id);
    }
}

/// `find_roots` lists, for every node, a root it can be reached from; in
/// particular a non-empty graph always has at least one root.
pub proof fn law_find_roots_cover_every_node(nodes: Seq<Node>, edges: Seq<Edge>, v: int)
    requires
        0 <= v < nodes.len(),
        nodes.len() <= usize::MAX,
        edges.len() <= usize::MAX,
    ensures
        exists|k: int, r: int|
            #![trigger spec_find_roots(nodes, edges)[k], is_root(graph_of(nodes, edges), r)]
            0 <= k < spec_find_roots(nodes, edges).len() && 0 <= r < nodes.len()
                && spec_find_roots(nodes, edges)[k] == nodes[r].id && is_root(
                graph_of(nodes, edges),
                r,
            ) && reaches(graph_of(nodes, edges), r, v),
        spec_find_roots(nodes, edges).len() > 0,
{
    let g = graph_of(nodes, edges);
    lemma_all_edge_ends_in_range(nodes, edges);
    lemma_build_adjacency(nodes.len(), all_edge_ends(nodes, edges), false);
    law_every_node_reachable_from_a_root(g, v);
    let r = choose|r: int| #[trigger] is_root(g, r) && reaches(g, r, v);
    let n = nodes.len() as int;
    lemma_root_candidates_contain(nodes, g, n, r);
    let cands = root_candidates(nodes, g, n);
    let i = choose|i: int| 0 <= i < cands.len() && (#[trigger] cands[i]).id == nodes[r].id;
    crate::sort::lemma_sort_seq_permutation(cands);
    crate::sort::lemma_sort_seq_sorted(cands);
    let sorted = sort_seq(cands);
    assert(cands.to_multiset().count(cands[i]) > 0) by {
        vstd::seq_lib::lemma_seq_contains_after_push(cands.take(i), cands[i], cands[i]);
        assert(cands.contains(cands[i]));
        vstd::seq_lib::lemma_multiset_commutative(cands.take(0), cands);
        cands.to_multiset_ensures();
    }
    sorted.to_multiset_ensures();
    assert(sorted.contains(cands[i]));
    let k = choose|k: int| 0 <= k < sorted.len() && sorted[k] == cands[i];
    assert(spec_find_roots(nodes, edges)[k] == nodes[r].id);
}


proof fn lemma_root_candidates_are_nodes(nodes: Seq<Node>, g: Adjacency, k: int, i: int)
    requires
        0 <= k <= nodes.len(),
        0 <= i < root_candidates(nodes, g, k).len(),
    ensures
        exists|r: int| 0 <= r < k && #[trigger] nodes[r].id == root_candidates(nodes, g, k)[i].id,
    decreases k,
{
    let prev = root_candidates(nodes, g, k - 1);
    if i < prev.len() {
        lemma_root_candidates_are_nodes(nodes, g, k - 1, i);
        assert(root_candidates(nodes, g, k)[i] == prev[i]);
    } else {
        assert(nodes[k - 1].id == root_candidates(nodes, g, k)[i].id);
    }
}

/// Every root [`find_roots`] lists is the id of one of the given nodes.
pub proof fn law_roots_are_node_ids(nodes: Seq<Node>, edges: Seq<Edge>, k: int)
    requires
        0 <= k < spec_find_roots(nodes, edges).len(),
    ensures
        exists|r: int| 0 <= r < nodes.len() && #[trigger] nodes[r].id == spec_find_roots(nodes, edges)[k],
{
    let g = graph_of(nodes, edges);
    let n = nodes.len() as int;
    let cands = root_candidates(nodes, g, n);
    crate::sort::lemma_sort_seq_permutation(cands);
    crate::sort::lemma_sort_seq_sorted(cands);
    let sorted = sort_seq(cands);
    assert(sorted.to_multiset().count(sorted[k]) > 0) by {
        sorted.to_multiset_ensures();
        assert(sorted.contains(sorted[k]));
    }
    cands.to_multiset_ensures();
    assert(cands.contains(sorted[k]));
    let i = choose|i: int| 0 <= i < cands.len() && cands[i] == sorted[k];
    lemma_root_candidates_are_nodes(nodes, g, n, i);
}


/// Two adjacency lists over the same nodes with the same edges (ignoring
/// edge indices and order).
pub open spec fn same_edges(g1: Adjacency, g2: Adjacency) -> bool {
    &&& g1.len() == g2.len()
    &&& forall|u: int, v: int| #[trigger] has_edge(g1, u, v) == has_edge(g2, u, v)
}

proof fn lemma_same_edges_reaches(g1: Adjacency, g2: Adjacency, u: int, v: int)
    requires
        same_edges(g1, g2),
        reaches(g1, u, v),
    ensures
        reaches(g2, u, v),
{
    let p = choose|p: Seq<int>| super::reach::is_path(g1, p) && p[0] == u && p.last() == v;
    assert forall|i: int| 0 <= i < p.len() - 1 implies has_edge(g2, #[trigger] p[i], p[i + 1]) by {
        assert(has_edge(g1, p[i], p[i + 1]));
    }
    assert(super::reach::is_path(g2, p));
}

proof fn lemma_same_edges_scc_min_from(g1: Adjacency, g2: Adjacency, v: int, k: int)
    requires
        same_edges(g1, g2),
    ensures
        scc_min_from(g1, v, k) == scc_min_from(g2, v, k),
    decreases v - k,
{
    if k < v {
        if same_scc(g1, k, v) {
            lemma_same_edges_reaches(g1, g2, k, v);
            lemma_same_edges_reaches(g1, g2, v, k);
        } else if same_scc(g2, k, v) {
            lemma_same_edges_reaches(g2, g1, k, v);
            lemma_same_edges_reaches(g2, g1, v, k);
        } else {
            lemma_same_edges_scc_min_from(g1, g2, v, k + 1);
        }
    }
}

proof fn lemma_same_edges_incoming(g1: Adjacency, g2: Adjacency, r: int)
    requires
        same_edges(g1, g2),
        scc_has_incoming(g1, r),
    ensures
        scc_has_incoming(g2, r),
{
    let (u, v) = choose|u: int, v: int|
        #![trigger has_edge(g1, u, v), same_scc(g1, v, r)]
        has_edge(g1, u, v) && same_scc(g1, v, r) && !same_scc(g1, u, r);
    assert(has_edge(g2, u, v));
    lemma_same_edges_reaches(g1, g2, v, r);
    lemma_same_edges_reaches(g1, g2, r, v);
    if same_scc(g2, u, r) {
        lemma_same_edges_reaches(g2, g1, u, r);
        lemma_same_edges_reaches(g2, g1, r, u);
    }
    assert(has_edge(g2, u, v) && same_scc(g2, v, r) && !same_scc(g2, u, r));
}

proof fn lemma_same_edges_is_root(g1: Adjacency, g2: Adjacency, r: int)
    requires
        same_edges(g1, g2),
    ensures
        is_root(g1, r) == is_root(g2, r),
{
    lemma_same_edges_scc_min_from(g1, g2, r, 0);
    if scc_has_incoming(g1, r) {
        lemma_same_edges_incoming(g1, g2, r);
    }
    if scc_has_incoming(g2, r) {
        lemma_same_edges_incoming(g2, g1, r);
    }
}

proof fn lemma_same_edges_candidates(nodes: Seq<Node>, g1: Adjacency, g2: Adjacency, k: int)
    requires
        same_edges(g1, g2),
    ensures
        root_candidates(nodes, g1, k) == root_candidates(nodes, g2, k),
    decreases k,
{
    if k > 0 {
        lemma_same_edges_candidates(nodes, g1, g2, k - 1);
        lemma_same_edges_is_root(g1, g2, k - 1);
    }
}

/// Two edge lists that connect the same pairs of the given nodes give the
/// same roots.
pub proof fn lemma_same_edges_same_roots(nodes: Seq<Node>, e1: Seq<Edge>, e2: Seq<Edge>)
    requires
        same_edges(graph_of(nodes, e1), graph_of(nodes, e2)),
    ensures
        spec_find_roots(nodes, e1) == spec_find_roots(nodes, e2),
{
    lemma_same_edges_candidates(nodes, graph_of(nodes, e1), graph_of(nodes, e2), nodes.len() as int);
}

} // verus!
