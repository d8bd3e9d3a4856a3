//! Cycle edges: the back edges of a depth-first walk from the roots.
//!
//! The walk is specified step by step ([`walk_step`]): each step either
//! starts a new walk from the next start node, follows the next edge of the
//! node on top of the path, or retreats from a node whose edges are all
//! followed. An edge followed to a node still on the current path is a back
//! edge: it closes a cycle ([`law_cycle_edges_close_cycles`]).
use vstd::prelude::*;

use super::reach::{
    adjacency_view, has_edge, lemma_reaches_edge, lemma_reaches_refl, lemma_reaches_trans,
    reaches, well_formed, Adjacency,
};
use super::roots::{
    adjacency_from_ends, all_edge_ends, build_adjacency, edge_positions, ends_in_range, ends_view, graph_of,
    lemma_build_adjacency,
};
use super::{edge_ends, id_index, index_of_id, lemma_id_index, Edge, Node};

verus! {

/// The state of the depth-first walk.
pub struct WalkState {
    /// Nodes the walk has entered.
    pub visited: Seq<bool>,
    /// Nodes on the current path from the walk's start.
    pub on_path: Seq<bool>,
    /// The current path: each node with the index of its next edge to follow.
    pub work: Seq<(usize, usize)>,
    /// Edge indices found to close a cycle, in discovery order.
    pub cycles: Seq<usize>,
    /// Nodes to start walks from, in order.
    pub starts: Seq<usize>,
    /// How many of `starts` have been taken.
    pub pos: int,
}

/// One step of the walk.
pub open spec fn walk_step(g: Adjacency, st: WalkState) -> WalkState {
    if st.work.len() > 0 {
        let top = st.work.len() - 1;
        let (v, ci) = st.work[top];
        if ci < g[v as int].len() {
            let (w, ei) = g[v as int][ci as int];
            let work1 = st.work.update(top, (v, (ci + 1) as usize));
            if st.on_path[w as int] {
                WalkState { work: work1, cycles: st.cycles.push(ei), ..st }
            } else if !st.visited[w as int] {
                WalkState {
                    visited: st.visited.update(w as int, true),
                    on_path: st.on_path.update(w as int, true),
                    work: work1.push((w, 0usize)),
                    ..st
                }
            } else {
                WalkState { work: work1, ..st }
            }
        } else {
            WalkState {
                on_path: st.on_path.update(v as int, false),
                work: st.work.drop_last(),
                ..st
            }
        }
    } else if st.pos < st.starts.len() {
        let s = st.starts[st.pos];
        if st.visited[s as int] {
            WalkState { pos: st.pos + 1, ..st }
        } else {
            WalkState {
                visited: st.visited.update(s as int, true),
                on_path: st.on_path.update(s as int, true),
                work: seq![(s, 0usize)],
                pos: st.pos + 1,
                ..st
            }
        }
    } else {
        st
    }
}

/// The walk has nothing left to do.
pub open spec fn walk_done(st: WalkState) -> bool {
    st.work.len() == 0 && st.pos >= st.starts.len()
}

/// The shape every reachable walk state has.
pub open spec fn walk_inv(g: Adjacency, st: WalkState) -> bool {
    &&& well_formed(g)
    &&& forall|u: int| 0 <= u < g.len() ==> (#[trigger] g[u]).len() <= usize::MAX
    &&& st.visited.len() == g.len()
    &&& st.on_path.len() == g.len()
    &&& 0 <= st.pos <= st.starts.len()
    &&& forall|i: int| 0 <= i < st.starts.len() ==> (#[trigger] st.starts[i]) < g.len()
    &&& forall|i: int|
        0 <= i < st.work.len() ==> (#[trigger] st.work[i]).0 < g.len() && st.work[i].1
            <= g[st.work[i].0 as int].len() && st.visited[st.work[i].0 as int]
}

/// Nodes the walk has not entered yet.
pub open spec fn unvisited_count(visited: Seq<bool>) -> nat
    decreases visited.len(),
{
    if visited.len() == 0 {
        0
    } else {
        unvisited_count(visited.drop_last()) + if visited.last() {
            0nat
        } else {
            1nat
        }
    }
}

/// Edges still to follow on the current path, plus one per path node,
/// plus the untaken starts.
pub open spec fn pending(g: Adjacency, work: Seq<(usize, usize)>) -> nat
    decreases work.len(),
{
    if work.len() == 0 {
        0
    } else {
        let (v, ci) = work.last();
        pending(g, work.drop_last()) + (g[v as int].len() - ci + 1) as nat
    }
}

pub open spec fn walk_measure(g: Adjacency, st: WalkState) -> nat {
    pending(g, st.work) + (st.starts.len() - st.pos) as nat
}

proof fn lemma_unvisited_update(s: Seq<bool>, i: int)
    requires
        0 <= i < s.len(),
        !s[i],
    ensures
        unvisited_count(s.update(i, true)) + 1 == unvisited_count(s),
    decreases s.len(),
{
    let t = s.update(i, true);
    if i == s.len() - 1 {
        assert(t.drop_last() =~= s.drop_last());
    } else {
        assert(t.drop_last() =~= s.drop_last().update(i, true));
        lemma_unvisited_update(s.drop_last(), i);
    }
}

proof fn lemma_pending_update_top(g: Adjacency, work: Seq<(usize, usize)>, v: usize, ci: usize)
    requires
        work.len() > 0,
        work.last() == (v, ci),
        ci < g[v as int].len(),
        g[v as int].len() <= usize::MAX,
    ensures
        pending(g, work.update(work.len() - 1, (v, (ci + 1) as usize))) + 1 == pending(g, work),
{
    let w1 = work.update(work.len() - 1, (v, (ci + 1) as usize));
    assert(w1.drop_last() =~= work.drop_last());
    assert(w1.last() == (v, (ci + 1) as usize));
}

/// The walk's steps make progress while it is not done.
pub proof fn lemma_walk_step(g: Adjacency, st: WalkState)
    requires
        walk_inv(g, st),
        !walk_done(st),
    ensures
        walk_inv(g, walk_step(g, st)),
        unvisited_count(walk_step(g, st).visited) < unvisited_count(st.visited) || (unvisited_count(
            walk_step(g, st).visited,
        ) == unvisited_count(st.visited) && walk_measure(g, walk_step(g, st)) < walk_measure(
            g,
            st,
        )),
{
    let nx = walk_step(g, st);
    if st.work.len() > 0 {
        let top = st.work.len() - 1;
        let (v, ci) = st.work[top];
        assert(st.work.last() == st.work[top]);
        if ci < g[v as int].len() {
            let (w, ei) = g[v as int][ci as int];
            let work1 = st.work.update(top, (v, (ci + 1) as usize));
            lemma_pending_update_top(g, st.work, v, ci);
            assert(w < g.len());
            if st.on_path[w as int] {
            } else if !st.visited[w as int] {
                lemma_unvisited_update(st.visited, w as int);
                assert forall|i: int| 0 <= i < nx.work.len() implies (#[trigger] nx.work[i]).0 < g.len()
                    && nx.work[i].1 <= g[nx.work[i].0 as int].len() && nx.visited[nx.work[i].0 as int] by {
                    if i < top {
                        assert(nx.work[i] == st.work[i]);
                    }
                }
            } else {
                assert forall|i: int| 0 <= i < nx.work.len() implies (#[trigger] nx.work[i]).0 < g.len()
                    && nx.work[i].1 <= g[nx.work[i].0 as int].len() && nx.visited[nx.work[i].0 as int] by {
                    if i < top {
                        assert(nx.work[i] == st.work[i]);
                    }
                }
            }
        } else {
            assert(pending(g, st.work) == pending(g, st.work.drop_last()) + 1);
            assert forall|i: int| 0 <= i < nx.work.len() implies (#[trigger] nx.work[i]).0 < g.len()
                && nx.work[i].1 <= g[nx.work[i].0 as int].len() && nx.visited[nx.work[i].0 as int] by {
                assert(nx.work[i] == st.work[i]);
            }
        }
    } else {
        let s = st.starts[st.pos];
        if !st.visited[s as int] {
            lemma_unvisited_update(st.visited, s as int);
        }
        assert(pending(g, seq![(s, 0usize)]) == (g[s as int].len() + 1) as nat) by {
            assert(seq![(s, 0usize)].drop_last() =~= Seq::<(usize, usize)>::empty());
            assert(seq![(s, 0usize)].last() == (s, 0usize));
            assert(pending(g, Seq::<(usize, usize)>::empty()) == 0);
        }
    }
}

/// The walk run to completion.
pub open spec fn walk_run(g: Adjacency, st: WalkState) -> WalkState
    decreases unvisited_count(st.visited), walk_measure(g, st),
    when walk_inv(g, st)
    via walk_run_decreases
{
    if walk_done(st) {
        st
    } else {
        walk_run(g, walk_step(g, st))
    }
}

#[via_fn]
proof fn walk_run_decreases(g: Adjacency, st: WalkState) {
    if !walk_done(st) {
        lemma_walk_step(g, st);
    }
}

/// The nodes walks start from: the roots (by the position their id
/// names), then every node in order.
pub open spec fn walk_starts(nodes: Seq<Node>, roots: Seq<String>) -> Seq<usize> {
    roots.filter(|id: String| id_index(nodes, id@) is Some).map_values(
        |id: String| id_index(nodes, id@).unwrap() as usize,
    ) + Seq::new(nodes.len(), |i: int| i as usize)
}

/// The walk before its first step.
pub open spec fn walk_start_state(n: nat, starts: Seq<usize>) -> WalkState {
    WalkState {
        visited: Seq::new(n, |i: int| false),
        on_path: Seq::new(n, |i: int| false),
        work: seq![],
        cycles: seq![],
        starts,
        pos: 0,
    }
}

/// The indices of the edges the walk from `roots` finds to close cycles.
pub open spec fn spec_cycle_edges(nodes: Seq<Node>, roots: Seq<String>, edges: Seq<Edge>) -> Seq<
    usize,
> {
    walk_run(
        graph_of(nodes, edges),
        walk_start_state(nodes.len(), walk_starts(nodes, roots)),
    ).cycles
}


pub open spec fn state_of(
    visited: Seq<bool>,
    on_path: Seq<bool>,
    work: Seq<(usize, usize)>,
    cycles: Seq<usize>,
    starts: Seq<usize>,
    pos: int,
) -> WalkState {
    WalkState { visited, on_path, work, cycles, starts, pos }
}

proof fn lemma_walk_run_step(g: Adjacency, st: WalkState)
    requires
        walk_inv(g, st),
        !walk_done(st),
    ensures
        walk_run(g, st) == walk_run(g, walk_step(g, st)),
        walk_inv(g, walk_step(g, st)),
{
    lemma_walk_step(g, st);
}

/// Walks depth-first from `start` until the path is empty again, recording
/// the index of every edge that leads back onto the current path.
fn dfs_mark_back_edges(
    start: usize,
    adj: &Vec<Vec<(usize, usize)>>,
    visited: &mut Vec<bool>,
    on_path: &mut Vec<bool>,
    cycle_edge_indices: &mut Vec<usize>,
    Ghost(starts): Ghost<Seq<usize>>,
    Ghost(pos): Ghost<int>,
    Ghost(m): Ghost<nat>,
)
    requires
        forall|u: int, j: int|
            0 <= u < adj@.len() && 0 <= j < adj@[u]@.len() ==> (#[trigger] adj@[u]@[j]).1 < m,
        forall|q: int|
            0 <= q < old(cycle_edge_indices)@.len() ==> (#[trigger] old(cycle_edge_indices)@[q])
                < m,
        walk_inv(
            adjacency_view(adj@),
            state_of(old(visited)@, old(on_path)@, seq![], old(cycle_edge_indices)@, starts, pos),
        ),
        0 <= pos < starts.len(),
        starts[pos] == start,
        !old(visited)@[start as int],
    ensures
        forall|q: int|
            0 <= q < final(cycle_edge_indices)@.len() ==> (#[trigger] final(cycle_edge_indices)@[q])
                < m,
        walk_inv(
            adjacency_view(adj@),
            state_of(final(visited)@, final(on_path)@, seq![], final(cycle_edge_indices)@, starts, pos + 1),
        ),
        walk_run(
            adjacency_view(adj@),
            state_of(old(visited)@, old(on_path)@, seq![], old(cycle_edge_indices)@, starts, pos),
        ) == walk_run(
            adjacency_view(adj@),
            state_of(final(visited)@, final(on_path)@, seq![], final(cycle_edge_indices)@, starts, pos + 1),
        ),
{
    let ghost g = adjacency_view(adj@);
    let ghost st0 = state_of(visited@, on_path@, seq![], cycle_edge_indices@, starts, pos);
    proof {
        lemma_walk_run_step(g, st0);
    }
    let mut work: Vec<(usize, usize)> = vec![(start, 0)];
    visited.set(start, true);
    on_path.set(start, true);
    assert(work@ =~= seq![(start, 0usize)]);
    assert(state_of(visited@, on_path@, work@, cycle_edge_indices@, starts, pos + 1) == walk_step(
        g,
        st0,
    ));
    while work.len() > 0
        invariant
            g == adjacency_view(adj@),
            walk_inv(g, state_of(visited@, on_path@, work@, cycle_edge_indices@, starts, pos + 1)),
            walk_run(g, st0) == walk_run(
                g,
                state_of(visited@, on_path@, work@, cycle_edge_indices@, starts, pos + 1),
            ),
            forall|u: int, j: int|
                0 <= u < adj@.len() && 0 <= j < adj@[u]@.len() ==> (#[trigger] adj@[u]@[j]).1 < m,
            forall|q: int|
                0 <= q < cycle_edge_indices@.len() ==> (#[trigger] cycle_edge_indices@[q]) < m,
        decreases unvisited_count(visited@), pending(g, work@),
    {
        let ghost cur = state_of(visited@, on_path@, work@, cycle_edge_indices@, starts, pos + 1);
        proof {
            lemma_walk_run_step(g, cur);
            lemma_walk_step(g, cur);
        }
        let top = work.len() - 1;
        let (v, ci) = work[top];
        assert(work@[top as int] == (v, ci));
        assert(adj@[v as int]@ == g[v as int]);
        if ci < adj[v].len() {
            let (w, ei) = adj[v][ci];
            assert(g[v as int][ci as int] == (w, ei));
            work.set(top, (v, ci + 1));
            if on_path[w] {
                cycle_edge_indices.push(ei);
            } else if !visited[w] {
                visited.set(w, true);
                on_path.set(w, true);
                work.push((w, 0));
            }
        } else {
            on_path.set(v, false);
            work.pop();
        }
        assert(state_of(visited@, on_path@, work@, cycle_edge_indices@, starts, pos + 1) == walk_step(
            g,
            cur,
        ));
    }
    assert(work@ =~= Seq::<(usize, usize)>::empty());
}

/// Marks every back edge of a depth-first walk starting at `roots` (in
/// order, then every remaining node) as `is_cycle`: an edge to a node
/// still on the current walk path closes a cycle. Other edges keep their
/// flag.
pub fn mark_cycle_edges(nodes: &[Node], roots: &[String], edges: &mut Vec<Edge>)
    ensures
        final(edges)@.len() == old(edges)@.len(),
        forall|k: int|
            0 <= k < old(edges)@.len() ==> #[trigger] final(edges)@[k] == (Edge {
                is_cycle: old(edges)@[k].is_cycle || spec_cycle_edges(
                    nodes@,
                    roots@,
                    old(edges)@,
                ).contains(k as usize),
                ..old(edges)@[k]
            }),
{
    let n = nodes.len();
    let ends = edge_positions(nodes, edges.as_slice());
    let adj = adjacency_from_ends(n, &ends, false);
    let ghost g = adjacency_view(adj@);
    proof {
        assert(ends_view(ends@).len() == ends.len());
        lemma_build_adjacency(n as nat, ends_view(ends@), false);
        assert(g == graph_of(nodes@, edges@));
        assert forall|u: int, j: int| 0 <= u < adj@.len() && 0 <= j < adj@[u]@.len() implies (
        #[trigger] adj@[u]@[j]).1 < edges@.len() by {
            assert(adj@[u]@ == g[u]);
        }
    }

    let mut starts: Vec<usize> = Vec::new();
    let ghost root_ids = roots@.filter(|id: String| id_index(nodes@, id@) is Some);
    let mut i: usize = 0;
    while i < roots.len()
        invariant
            i <= roots@.len(),
            starts@ == roots@.take(i as int).filter(|id: String| id_index(nodes@, id@) is Some).map_values(
                |id: String| id_index(nodes@, id@).unwrap() as usize,
            ),
        decreases roots.len() - i,
    {
        let ghost before = roots@.take(i as int);
        assert(roots@.take(i + 1).drop_last() =~= before);
        assert(roots@.take(i + 1).last() == roots@[i as int]);
        reveal_with_fuel(Seq::<String>::filter, 1);
        match index_of_id(nodes, &roots[i]) {
            Some(k) => {
                starts.push(k);
            },
            None => {},
        }
        i += 1;
        assert(starts@ =~= roots@.take(i as int).filter(|id: String| id_index(nodes@, id@) is Some).map_values(
            |id: String| id_index(nodes@, id@).unwrap() as usize,
        ));
    }
    assert(roots@.take(i as int) =~= roots@);
    let ghost prefix = starts@;
    let mut j: usize = 0;
    while j < n
        invariant
            j <= n,
            n == nodes@.len(),
            starts@ == prefix + Seq::new(j as nat, |q: int| q as usize),
        decreases n - j,
    {
        starts.push(j);
        j += 1;
        assert(starts@ =~= prefix + Seq::new(j as nat, |q: int| q as usize));
    }
    assert(starts@ == walk_starts(nodes@, roots@));
    proof {
        assert forall|q: int| 0 <= q < root_ids.len() implies id_index(nodes@, (#[trigger] root_ids[q])@) is Some by {
            assert(root_ids.contains(root_ids[q]));
        }
        assert forall|q: int| 0 <= q < starts@.len() implies (#[trigger] starts@[q]) < n by {
            if q < prefix.len() {
                lemma_id_index(nodes@, root_ids[q]@);
            }
        }
    }

    let mut visited: Vec<bool> = vec![false; n];
    let mut on_path: Vec<bool> = vec![false; n];
    let mut cycle_edge_indices: Vec<usize> = Vec::new();
    let ghost init = walk_start_state(n as nat, starts@);
    assert(visited@ =~= Seq::new(n as nat, |q: int| false));
    assert(on_path@ =~= Seq::new(n as nat, |q: int| false));
    assert(cycle_edge_indices@ =~= Seq::<usize>::empty());
    assert(state_of(visited@, on_path@, seq![], cycle_edge_indices@, starts@, 0) == init);
    let mut pos: usize = 0;
    while pos < starts.len()
        invariant
            g == adjacency_view(adj@),
            g.len() == n,
            pos <= starts@.len(),
            walk_inv(g, state_of(visited@, on_path@, seq![], cycle_edge_indices@, starts@, pos as int)),
            walk_run(g, init) == walk_run(
                g,
                state_of(visited@, on_path@, seq![], cycle_edge_indices@, starts@, pos as int),
            ),
            forall|q: int|
                0 <= q < cycle_edge_indices@.len() ==> (#[trigger] cycle_edge_indices@[q])
                    < edges@.len(),
            forall|u: int, j: int|
                0 <= u < adj@.len() && 0 <= j < adj@[u]@.len() ==> (#[trigger] adj@[u]@[j]).1
                    < edges@.len(),
        decreases starts.len() - pos,
    {
        let start = starts[pos];
        if visited[start] {
            proof {
                lemma_walk_run_step(
                    g,
                    state_of(visited@, on_path@, seq![], cycle_edge_indices@, starts@, pos as int),
                );
            }
        } else {
            dfs_mark_back_edges(
                start,
                &adj,
                &mut visited,
                &mut on_path,
                &mut cycle_edge_indices,
                Ghost(starts@),
                Ghost(pos as int),
                Ghost(edges@.len()),
            );
        }
        pos += 1;
    }
    let ghost fin = state_of(visited@, on_path@, seq![], cycle_edge_indices@, starts@, pos as int);
    assert(walk_done(fin));
    assert(walk_run(g, fin) == fin);
    assert(cycle_edge_indices@ == spec_cycle_edges(nodes@, roots@, old(edges)@));

    let ghost old_edges = edges@;
    let m = edges.len();
    let mut k: usize = 0;
    while k < cycle_edge_indices.len()
        invariant
            k <= cycle_edge_indices@.len(),
            old_edges.len() == m,
            edges@.len() == old_edges.len(),
            forall|q: int|
                0 <= q < cycle_edge_indices@.len() ==> (#[trigger] cycle_edge_indices@[q])
                    < old_edges.len(),
            forall|q: int|
                0 <= q < old_edges.len() ==> #[trigger] edges@[q] == (Edge {
                    is_cycle: old_edges[q].is_cycle || cycle_edge_indices@.take(k as int).contains(
                        q as usize,
                    ),
                    ..old_edges[q]
                }),
        decreases cycle_edge_indices.len() - k,
    {
        let ei = cycle_edge_indices[k];
        let ghost prev = edges@;
        edges[ei].is_cycle = true;
        assert(edges@ == prev.update(ei as int, Edge { is_cycle: true, ..prev[ei as int] }));
        k += 1;
        proof {
            assert forall|q: int| 0 <= q < old_edges.len() implies #[trigger] edges@[q] == (Edge {
                is_cycle: old_edges[q].is_cycle || cycle_edge_indices@.take(k as int).contains(
                    q as usize,
                ),
                ..old_edges[q]
            }) by {
                let t = cycle_edge_indices@.take(k as int);
                let t0 = cycle_edge_indices@.take(k - 1);
                assert(t =~= t0.push(ei));
                assert(prev[q] == Edge {
                    is_cycle: old_edges[q].is_cycle || t0.contains(q as usize),
                    ..old_edges[q]
                });
                if q == ei as int {
                    assert(t[t.len() - 1] == ei);
                } else {
                    if t.contains(q as usize) {
                        let r = choose|r: int| 0 <= r < t.len() && t[r] == q as usize;
                        assert(r < t0.len());
                        assert(t0[r] == t[r]);
                    }
                    if t0.contains(q as usize) {
                        let r = choose|r: int| 0 <= r < t0.len() && t0[r] == q as usize;
                        assert(t[r] == t0[r]);
                    }
                }
            }
        }
    }
    assert(cycle_edge_indices@.take(k as int) =~= cycle_edge_indices@);
}


// ---------------------------------------------------------------------
// Law: cycle edges close cycles.
// ---------------------------------------------------------------------

/// The current path is a walk along edges: each node on it was entered by
/// the edge just before its predecessor's next-edge index; the path holds
/// each node once, and `on_path` is exactly its node set.
pub open spec fn path_inv(g: Adjacency, st: WalkState) -> bool {
    &&& forall|i: int|
        0 <= i < st.work.len() - 1 ==> (#[trigger] st.work[i]).1 >= 1 && g[st.work[i].0 as int][st.work[i].1 - 1].0
            == st.work[i + 1].0
    &&& forall|i: int, j: int|
        0 <= i < j < st.work.len() ==> (#[trigger] st.work[i]).0 != (#[trigger] st.work[j]).0
    &&& forall|x: int|
        0 <= x < g.len() ==> (#[trigger] st.on_path[x] <==> exists|i: int|
            0 <= i < st.work.len() && (#[trigger] st.work[i]).0 == x)
}

/// Every recorded edge index belongs to an edge whose target reaches its
/// source.
pub open spec fn cycles_close(g: Adjacency, cycles: Seq<usize>) -> bool {
    forall|q: int|
        #![trigger cycles[q]]
        0 <= q < cycles.len() ==> exists|u: int, j: int|
            #![trigger g[u][j]]
            0 <= u < g.len() && 0 <= j < g[u].len() && g[u][j].1 == cycles[q] && reaches(
                g,
                g[u][j].0 as int,
                u,
            )
}

proof fn lemma_path_reaches(g: Adjacency, work: Seq<(usize, usize)>, i: int, j: int)
    requires
        well_formed(g),
        0 <= i <= j < work.len(),
        forall|q: int| 0 <= q < work.len() ==> (#[trigger] work[q]).0 < g.len(),
        forall|q: int|
            0 <= q < work.len() - 1 ==> (#[trigger] work[q]).1 >= 1 && g[work[q].0 as int][work[q].1 - 1].0
                == work[q + 1].0,
        forall|q: int| 0 <= q < work.len() ==> (#[trigger] work[q]).1 <= g[work[q].0 as int].len(),
    ensures
        reaches(g, work[i].0 as int, work[j].0 as int),
    decreases j - i,
{
    if i == j {
        lemma_reaches_refl(g, work[i].0 as int);
    } else {
        lemma_path_reaches(g, work, i, j - 1);
        let (v, c) = work[j - 1];
        assert(work[j - 1].1 >= 1);
        assert(g[v as int][c - 1].0 == work[j].0);
        assert(has_edge(g, v as int, work[j].0 as int));
        lemma_reaches_edge(g, v as int, work[j].0 as int);
        lemma_reaches_trans(g, work[i].0 as int, v as int, work[j].0 as int);
    }
}

proof fn lemma_walk_step_keeps_cycles_closed(g: Adjacency, st: WalkState)
    requires
        walk_inv(g, st),
        path_inv(g, st),
        cycles_close(g, st.cycles),
        !walk_done(st),
    ensures
        path_inv(g, walk_step(g, st)),
        cycles_close(g, walk_step(g, st).cycles),
{
    let nx = walk_step(g, st);
    lemma_walk_step(g, st);
    if st.work.len() > 0 {
        let top = st.work.len() - 1;
        let (v, ci) = st.work[top];
        if ci < g[v as int].len() {
            let (w, ei) = g[v as int][ci as int];
            let work1 = st.work.update(top, (v, (ci + 1) as usize));
            assert forall|i: int| 0 <= i < work1.len() - 1 implies (#[trigger] work1[i]).1 >= 1
                && g[work1[i].0 as int][work1[i].1 - 1].0 == work1[i + 1].0 by {
                assert(work1[i] == st.work[i]);
                if i + 1 < top {
                    assert(work1[i + 1] == st.work[i + 1]);
                } else {
                    assert(work1[i + 1].0 == st.work[i + 1].0);
                }
            }
            if st.on_path[w as int] {
                let i = choose|i: int| 0 <= i < st.work.len() && (#[trigger] st.work[i]).0 == w;
                lemma_path_reaches(g, st.work, i, top);
                assert forall|q: int| #![trigger nx.cycles[q]] 0 <= q < nx.cycles.len() implies exists|u: int, j: int|
                    #![trigger g[u][j]]
                    0 <= u < g.len() && 0 <= j < g[u].len() && g[u][j].1 == nx.cycles[q]
                        && reaches(g, g[u][j].0 as int, u) by {
                    if q == st.cycles.len() {
                        assert(g[v as int][ci as int].1 == nx.cycles[q]);
                    } else {
                        assert(nx.cycles[q] == st.cycles[q]);
                    }
                }
                assert forall|x: int| 0 <= x < g.len() implies (#[trigger] nx.on_path[x] <==> exists|
                    i: int,
                | 0 <= i < nx.work.len() && (#[trigger] nx.work[i]).0 == x) by {
                    if st.on_path[x] {
                        let i = choose|i: int| 0 <= i < st.work.len() && (#[trigger] st.work[i]).0 == x;
                        assert(nx.work[i].0 == x);
                    }
                    if exists|i: int| 0 <= i < nx.work.len() && (#[trigger] nx.work[i]).0 == x {
                        let i = choose|i: int| 0 <= i < nx.work.len() && (#[trigger] nx.work[i]).0 == x;
                        assert(st.work[i].0 == x);
                    }
                }
            } else if !st.visited[w as int] {
                let work2 = work1.push((w, 0usize));
                assert forall|i: int| 0 <= i < work2.len() - 1 implies (#[trigger] work2[i]).1 >= 1
                    && g[work2[i].0 as int][work2[i].1 - 1].0 == work2[i + 1].0 by {
                    assert(work2[i] == work1[i]);
                    if i < top {
                        assert(work2[i + 1] == work1[i + 1]);
                    }
                }
                assert forall|i: int, j: int| 0 <= i < j < work2.len() implies (#[trigger] work2[i]).0
                    != (#[trigger] work2[j]).0 by {
                    if j == top + 1 {
                        assert(st.on_path[st.work[i].0 as int]);
                    } else {
                        assert(work2[i].0 == st.work[i].0 && work2[j].0 == st.work[j].0);
                    }
                }
                assert forall|x: int| 0 <= x < g.len() implies (#[trigger] nx.on_path[x] <==> exists|
                    i: int,
                | 0 <= i < nx.work.len() && (#[trigger] nx.work[i]).0 == x) by {
                    if st.on_path[x] {
                        let i = choose|i: int| 0 <= i < st.work.len() && (#[trigger] st.work[i]).0 == x;
                        assert(nx.work[i].0 == x);
                    }
                    if x == w {
                        assert(nx.work[top + 1].0 == x);
                    }
                    if exists|i: int| 0 <= i < nx.work.len() && (#[trigger] nx.work[i]).0 == x {
                        let i = choose|i: int| 0 <= i < nx.work.len() && (#[trigger] nx.work[i]).0 == x;
                        if i <= top {
                            assert(st.work[i].0 == x);
                        }
                    }
                }
            } else {
                assert forall|x: int| 0 <= x < g.len() implies (#[trigger] nx.on_path[x] <==> exists|
                    i: int,
                | 0 <= i < nx.work.len() && (#[trigger] nx.work[i]).0 == x) by {
                    if st.on_path[x] {
                        let i = choose|i: int| 0 <= i < st.work.len() && (#[trigger] st.work[i]).0 == x;
                        assert(nx.work[i].0 == x);
                    }
                    if exists|i: int| 0 <= i < nx.work.len() && (#[trigger] nx.work[i]).0 == x {
                        let i = choose|i: int| 0 <= i < nx.work.len() && (#[trigger] nx.work[i]).0 == x;
                        assert(st.work[i].0 == x);
                    }
                }
            }
        } else {
            assert forall|x: int| 0 <= x < g.len() implies (#[trigger] nx.on_path[x] <==> exists|
                i: int,
            | 0 <= i < nx.work.len() && (#[trigger] nx.work[i]).0 == x) by {
                if x != v && st.on_path[x] {
                    let i = choose|i: int| 0 <= i < st.work.len() && (#[trigger] st.work[i]).0 == x;
                    assert(i != top);
                    assert(nx.work[i].0 == x);
                }
                if exists|i: int| 0 <= i < nx.work.len() && (#[trigger] nx.work[i]).0 == x {
                    let i = choose|i: int| 0 <= i < nx.work.len() && (#[trigger] nx.work[i]).0 == x;
                    assert(st.work[i].0 == x);
                    if x == v {
                        assert(st.work[top].0 == v);
                    }
                }
            }
            assert forall|i: int| 0 <= i < nx.work.len() - 1 implies (#[trigger] nx.work[i]).1 >= 1
                && g[nx.work[i].0 as int][nx.work[i].1 - 1].0 == nx.work[i + 1].0 by {
                assert(nx.work[i] == st.work[i] && nx.work[i + 1] == st.work[i + 1]);
            }
        }
    } else {
        let s = st.starts[st.pos];
        assert forall|x: int| 0 <= x < g.len() implies !st.on_path[x] by {}
        if !st.visited[s as int] {
            assert forall|x: int| 0 <= x < g.len() implies (#[trigger] nx.on_path[x] <==> exists|
                i: int,
            | 0 <= i < nx.work.len() && (#[trigger] nx.work[i]).0 == x) by {
                if x == s {
                    assert(nx.work[0].0 == x);
                }
            }
        }
    }
}

proof fn lemma_walk_run_cycles_close(g: Adjacency, st: WalkState)
    requires
        walk_inv(g, st),
        path_inv(g, st),
        cycles_close(g, st.cycles),
    ensures
        cycles_close(g, walk_run(g, st).cycles),
    decreases unvisited_count(st.visited), walk_measure(g, st),
{
    if !walk_done(st) {
        lemma_walk_step(g, st);
        lemma_walk_step_keeps_cycles_closed(g, st);
        lemma_walk_run_cycles_close(g, walk_step(g, st));
    }
}

/// Every edge marked as a cycle edge closes a cycle: its target can reach
/// its source.
pub proof fn law_cycle_edges_close_cycles(nodes: Seq<Node>, roots: Seq<String>, edges: Seq<Edge>, q: int)
    requires
        nodes.len() <= usize::MAX,
        edges.len() <= usize::MAX,
        0 <= q < spec_cycle_edges(nodes, roots, edges).len(),
    ensures
        ({
            let k = spec_cycle_edges(nodes, roots, edges)[q] as int;
            &&& 0 <= k < edges.len()
            &&& edge_ends(nodes, edges[k]) matches Some((a, b))
            &&& reaches(graph_of(nodes, edges), b, a)
        }),
{
    let g = graph_of(nodes, edges);
    let n = nodes.len();
    let starts = walk_starts(nodes, roots);
    let init = walk_start_state(n, starts);
    super::roots::lemma_all_edge_ends_in_range_pub(nodes, edges);
    lemma_build_adjacency(n, all_edge_ends(nodes, edges), false);
    let root_ids = roots.filter(|id: String| id_index(nodes, id@) is Some);
    assert forall|i: int| 0 <= i < starts.len() implies (#[trigger] starts[i]) < g.len() by {
        if i < root_ids.len() {
            assert(root_ids.contains(root_ids[i]));
            lemma_id_index(nodes, root_ids[i]@);
        }
    }
    assert(walk_inv(g, init));
    assert(path_inv(g, init));
    lemma_walk_run_cycles_close(g, init);
    let k = spec_cycle_edges(nodes, roots, edges)[q] as int;
    let cyc = walk_run(g, init).cycles;
    assert(cyc == spec_cycle_edges(nodes, roots, edges));
    assert(cyc[q] as int == k);
    assert(exists|u: int, j: int|
        #![trigger g[u][j]]
        0 <= u < g.len() && 0 <= j < g[u].len() && g[u][j].1 == cyc[q] && reaches(g, g[u][j].0 as int, u));
    let (u, j) = choose|u: int, j: int|
        #![trigger g[u][j]]
        0 <= u < g.len() && 0 <= j < g[u].len() && g[u][j].1 == k && reaches(g, g[u][j].0 as int, u);
    super::roots::lemma_build_adjacency_entry(n, all_edge_ends(nodes, edges), u, j);
    let b = g[u][j].0 as int;
    assert(all_edge_ends(nodes, edges)[k] == edge_ends(nodes, edges[k]));
    assert(edge_ends(nodes, edges[k]) == Some((u, b)) && reaches(g, b, u));
    assert(0 <= k < edges.len());
}

// ---------------------------------------------------------------------
// Law: the edges left unmarked form no cycle.
// ---------------------------------------------------------------------

/// Node `u` has been entered and left: the walk is done with it.
pub open spec fn finished(st: WalkState, u: int) -> bool {
    st.visited[u] && !st.on_path[u]
}

/// `rank` orders the finished nodes by the time they were left (all below
/// `next`): every unmarked edge of a finished node leads to a node left
/// earlier, and every unmarked edge a path node has followed leads to a
/// finished node, but for the edge into the next node on the path.
pub open spec fn rank_inv(g: Adjacency, st: WalkState, rank: Seq<int>, next: int) -> bool {
    &&& rank.len() == g.len()
    &&& 0 <= next
    &&& forall|u: int| 0 <= u < g.len() && finished(st, u) ==> 0 <= #[trigger] rank[u] < next
    &&& forall|u: int, j: int|
        #![trigger g[u][j]]
        0 <= u < g.len() && finished(st, u) && 0 <= j < g[u].len() && !st.cycles.contains(g[u][j].1)
            ==> finished(st, g[u][j].0 as int) && rank[g[u][j].0 as int] < rank[u]
    &&& forall|i: int, j: int|
        #![trigger st.work[i], g[st.work[i].0 as int][j]]
        0 <= i < st.work.len() && 0 <= j < st.work[i].1 && !st.cycles.contains(g[st.work[i].0 as int][j].1)
            ==> finished(st, g[st.work[i].0 as int][j].0 as int) || (j == st.work[i].1 - 1 && i
            < st.work.len() - 1)
    &&& forall|i: int| 0 <= i < st.pos ==> st.visited[#[trigger] st.starts[i] as int]
}

proof fn lemma_walk_step_ranks(g: Adjacency, st: WalkState, rank: Seq<int>, next: int) -> (res: (Seq<int>, int))
    requires
        walk_inv(g, st),
        path_inv(g, st),
        rank_inv(g, st, rank, next),
        !walk_done(st),
    ensures
        rank_inv(g, walk_step(g, st), res.0, res.1),
{
    let nx = walk_step(g, st);
    lemma_walk_step(g, st);
    if st.work.len() > 0 {
        let top = st.work.len() - 1;
        let (v, ci) = st.work[top];
        assert(st.on_path[v as int]);
        if ci < g[v as int].len() {
            let (w, ei) = g[v as int][ci as int];
            assert(w < g.len());
            if st.on_path[w as int] {
                assert(nx.cycles.contains(ei)) by {
                    assert(nx.cycles[nx.cycles.len() - 1] == ei);
                }
                assert forall|x: usize| st.cycles.contains(x) implies nx.cycles.contains(x) by {
                    let q = choose|q: int| 0 <= q < st.cycles.len() && st.cycles[q] == x;
                    assert(nx.cycles[q] == x);
                }
                assert forall|i: int, j: int|
                    #![trigger nx.work[i], g[nx.work[i].0 as int][j]]
                    0 <= i < nx.work.len() && 0 <= j < nx.work[i].1 && !nx.cycles.contains(g[nx.work[i].0 as int][j].1)
                    implies finished(nx, g[nx.work[i].0 as int][j].0 as int) || (j == nx.work[i].1 - 1 && i
                    < nx.work.len() - 1) by {
                    if i < top {
                        assert(nx.work[i] == st.work[i]);
                    } else {
                        assert(nx.work[i] == (v, (ci + 1) as usize));
                        assert(st.work[i] == (v, ci));
                        if j == ci {
                            assert(g[v as int][j].1 == ei);
                        }
                    }
                }
                (rank, next)
            } else if !st.visited[w as int] {
                assert forall|i: int, j: int|
                    #![trigger nx.work[i], g[nx.work[i].0 as int][j]]
                    0 <= i < nx.work.len() && 0 <= j < nx.work[i].1 && !nx.cycles.contains(g[nx.work[i].0 as int][j].1)
                    implies finished(nx, g[nx.work[i].0 as int][j].0 as int) || (j == nx.work[i].1 - 1 && i
                    < nx.work.len() - 1) by {
                    if i < top {
                        assert(nx.work[i] == st.work[i]);
                        let x = g[st.work[i].0 as int][j].0 as int;
                        if finished(st, x) {
                            assert(x != w);
                        }
                    } else if i == top {
                        assert(nx.work[i] == (v, (ci + 1) as usize));
                        assert(st.work[i] == (v, ci));
                        if j < ci {
                            let x = g[v as int][j].0 as int;
                            assert(finished(st, x));
                            assert(x != w);
                        }
                    } else {
                        assert(nx.work[i] == (w, 0usize));
                    }
                }
                assert forall|u: int, j: int|
                    #![trigger g[u][j]]
                    0 <= u < g.len() && finished(nx, u) && 0 <= j < g[u].len() && !nx.cycles.contains(g[u][j].1)
                    implies finished(nx, g[u][j].0 as int) && rank[g[u][j].0 as int] < rank[u] by {
                    assert(finished(st, u));
                    assert(finished(st, g[u][j].0 as int));
                }
                assert forall|i: int| 0 <= i < nx.pos implies nx.visited[#[trigger] nx.starts[i] as int] by {
                    assert(st.visited[st.starts[i] as int]);
                }
                (rank, next)
            } else {
                assert(finished(st, w as int));
                assert forall|i: int, j: int|
                    #![trigger nx.work[i], g[nx.work[i].0 as int][j]]
                    0 <= i < nx.work.len() && 0 <= j < nx.work[i].1 && !nx.cycles.contains(g[nx.work[i].0 as int][j].1)
                    implies finished(nx, g[nx.work[i].0 as int][j].0 as int) || (j == nx.work[i].1 - 1 && i
                    < nx.work.len() - 1) by {
                    if i < top {
                        assert(nx.work[i] == st.work[i]);
                    } else {
                        assert(nx.work[i] == (v, (ci + 1) as usize));
                        assert(st.work[i] == (v, ci));
                    }
                }
                (rank, next)
            }
        } else {
            let rank2 = rank.update(v as int, next);
            assert(!finished(st, v as int));
            assert(forall|i: int| 0 <= i < nx.work.len() ==> #[trigger] nx.work[i] == st.work[i]);
            assert forall|x: int| 0 <= x < g.len() && x != v implies finished(nx, x) == finished(st, x) by {
            }
            assert forall|u: int| 0 <= u < g.len() && finished(nx, u) implies 0 <= #[trigger] rank2[u] < next + 1 by {
                if u != v {
                    assert(finished(st, u));
                }
            }
            assert forall|u: int, j: int|
                #![trigger g[u][j]]
                0 <= u < g.len() && finished(nx, u) && 0 <= j < g[u].len() && !nx.cycles.contains(g[u][j].1)
                implies finished(nx, g[u][j].0 as int) && rank2[g[u][j].0 as int] < rank2[u] by {
                let x = g[u][j].0 as int;
                if u == v as int {
                    assert(st.work[top] == (v, ci));
                    assert(g[st.work[top].0 as int][j] == g[u][j]);
                    assert(finished(st, x));
                    assert(x != v);
                } else {
                    assert(finished(st, u));
                    assert(finished(st, x));
                    assert(x != v);
                }
            }
            assert forall|i: int, j: int|
                #![trigger nx.work[i], g[nx.work[i].0 as int][j]]
                0 <= i < nx.work.len() && 0 <= j < nx.work[i].1 && !nx.cycles.contains(g[nx.work[i].0 as int][j].1)
                implies finished(nx, g[nx.work[i].0 as int][j].0 as int) || (j == nx.work[i].1 - 1 && i
                < nx.work.len() - 1) by {
                assert(nx.work[i] == st.work[i]);
                let x = g[st.work[i].0 as int][j].0 as int;
                if finished(st, x) {
                    assert(x != v);
                } else {
                    assert(j == st.work[i].1 - 1 && i < st.work.len() - 1);
                    if i == nx.work.len() - 1 {
                        assert(x == st.work[i + 1].0);
                    } else {
                    }
                }
            }
            assert forall|i: int| 0 <= i < nx.pos implies nx.visited[#[trigger] nx.starts[i] as int] by {
                assert(st.visited[st.starts[i] as int]);
            }
            (rank2, next + 1)
        }
    } else {
        let s = st.starts[st.pos];
        assert forall|x: int| 0 <= x < g.len() implies !st.on_path[x] by {
        }
        assert forall|u: int, j: int|
            #![trigger g[u][j]]
            0 <= u < g.len() && finished(nx, u) && 0 <= j < g[u].len() && !nx.cycles.contains(g[u][j].1)
            implies finished(nx, g[u][j].0 as int) && rank[g[u][j].0 as int] < rank[u] by {
            assert(finished(st, u));
            assert(finished(st, g[u][j].0 as int));
        }
        assert forall|u: int| 0 <= u < g.len() && finished(nx, u) implies 0 <= #[trigger] rank[u] < next by {
            assert(finished(st, u));
        }
        assert forall|i: int| 0 <= i < nx.pos implies nx.visited[#[trigger] nx.starts[i] as int] by {
            if i < st.pos {
                assert(st.visited[st.starts[i] as int]);
            }
        }
        (rank, next)
    }
}

/// Each edge with known ends has its entry in its source's adjacency.
proof fn lemma_build_adjacency_slot(n: nat, ends: Seq<Option<(int, int)>>, k: int)
    requires
        n <= usize::MAX,
        ends.len() <= usize::MAX,
        ends_in_range(n, ends),
        0 <= k < ends.len(),
        ends[k] is Some,
    ensures
        ({
            let (x, y) = ends[k].unwrap();
            exists|j: int|
                0 <= j < build_adjacency(n, ends, false)[x].len() && #[trigger] build_adjacency(n, ends, false)[x][j]
                    == (y as usize, k as usize)
        }),
    decreases ends.len(),
{
    let g = build_adjacency(n, ends, false);
    let init = ends.drop_last();
    let last = ends.len() - 1;
    let (x, y) = ends[k].unwrap();
    lemma_build_adjacency(n, ends, false);
    assert(ends_in_range(n, init)) by {
        assert forall|q: int| 0 <= q < init.len() implies (#[trigger] init[q] matches Some((a, b)) ==> 0 <= a < n
            && 0 <= b < n) by {
            assert(init[q] == ends[q]);
        }
    }
    lemma_build_adjacency(n, init, false);
    let a = build_adjacency(n, init, false);
    assert(0 <= x < n && 0 <= y < n);
    if k == last {
        assert(ends.last() == Some((x, y)));
        assert(g == a.update(x, a[x].push((y as usize, last as usize))));
        let j = a[x].len() as int;
        assert(g[x][j] == (y as usize, k as usize));
    } else {
        assert(init[k] == ends[k]);
        lemma_build_adjacency_slot(n, init, k);
        let j = choose|j: int| 0 <= j < a[x].len() && #[trigger] a[x][j] == (y as usize, k as usize);
        match ends.last() {
            None => {
                assert(g == a);
            },
            Some((p, q)) => {
                assert(0 <= p < n);
                assert(g == a.update(p, a[p].push((q as usize, last as usize))));
                assert(g[x][j] == a[x][j]);
            },
        }
        assert(g[x][j] == (y as usize, k as usize));
    }
}

proof fn lemma_walk_run_ranks(g: Adjacency, st: WalkState, rank: Seq<int>, next: int) -> (r: Seq<int>)
    requires
        walk_inv(g, st),
        path_inv(g, st),
        cycles_close(g, st.cycles),
        rank_inv(g, st, rank, next),
        g.len() <= usize::MAX,
        forall|u: usize| (u as int) < g.len() ==> #[trigger] st.starts.contains(u),
    ensures
        r.len() == g.len(),
        forall|u: int, j: int|
            #![trigger g[u][j]]
            0 <= u < g.len() && 0 <= j < g[u].len() && !walk_run(g, st).cycles.contains(g[u][j].1) ==> r[g[u][j].0 as int]
                < r[u],
    decreases unvisited_count(st.visited), walk_measure(g, st),
{
    if walk_done(st) {
        assert forall|u: int| 0 <= u < g.len() implies finished(st, u) by {
            assert(st.starts.contains(u as usize));
            let i = choose|i: int| 0 <= i < st.starts.len() && st.starts[i] == u as usize;
            assert(st.visited[st.starts[i] as int]);
            assert(!st.on_path[u]);
        }
        assert forall|u: int, j: int|
            #![trigger g[u][j]]
            0 <= u < g.len() && 0 <= j < g[u].len() && !walk_run(g, st).cycles.contains(g[u][j].1) implies rank[g[u][j].0 as int]
            < rank[u] by {
            assert(finished(st, u));
        }
        rank
    } else {
        lemma_walk_step(g, st);
        lemma_walk_step_keeps_cycles_closed(g, st);
        let (rank2, next2) = lemma_walk_step_ranks(g, st, rank, next);
        lemma_walk_run_step(g, st);
        lemma_walk_run_ranks(g, walk_step(g, st), rank2, next2)
    }
}

/// The edges the walk leaves unmarked form no cycle: some ranking of the
/// nodes strictly decreases along every one of them.
pub proof fn law_unmarked_edges_form_no_cycle(nodes: Seq<Node>, roots: Seq<String>, edges: Seq<Edge>)
    requires
        nodes.len() <= usize::MAX,
        edges.len() <= usize::MAX,
    ensures
        exists|rank: Seq<int>|
            rank.len() == nodes.len() && forall|k: int|
                0 <= k < edges.len() && !spec_cycle_edges(nodes, roots, edges).contains(k as usize) ==> (
                #[trigger] edge_ends(nodes, edges[k]) matches Some((a, b)) ==> rank[b] < rank[a]),
{
    let g = graph_of(nodes, edges);
    let n = nodes.len();
    let starts = walk_starts(nodes, roots);
    let init = walk_start_state(n, starts);
    let ends = all_edge_ends(nodes, edges);
    super::roots::lemma_all_edge_ends_in_range_pub(nodes, edges);
    lemma_build_adjacency(n, ends, false);
    let root_ids = roots.filter(|id: String| id_index(nodes, id@) is Some);
    assert forall|i: int| 0 <= i < starts.len() implies (#[trigger] starts[i]) < g.len() by {
        if i < root_ids.len() {
            assert(root_ids.contains(root_ids[i]));
            lemma_id_index(nodes, root_ids[i]@);
        }
    }
    let prefix = root_ids.map_values(|id: String| id_index(nodes, id@).unwrap() as usize);
    assert forall|u: usize| (u as int) < g.len() implies #[trigger] starts.contains(u) by {
        assert(starts[prefix.len() + u] == u);
    }
    assert(walk_inv(g, init));
    assert(path_inv(g, init));
    assert(rank_inv(g, init, Seq::new(n, |i: int| 0int), 0));
    let rank = lemma_walk_run_ranks(g, init, Seq::new(n, |i: int| 0int), 0);
    let cyc = spec_cycle_edges(nodes, roots, edges);
    assert(cyc == walk_run(g, init).cycles);
    assert forall|k: int|
        0 <= k < edges.len() && !cyc.contains(k as usize) implies (#[trigger] edge_ends(nodes, edges[k]) matches Some(
        (a, b),
    ) ==> rank[b] < rank[a]) by {
        assert(ends[k] == edge_ends(nodes, edges[k]));
        if let Some((a, b)) = edge_ends(nodes, edges[k]) {
            lemma_build_adjacency_slot(n, ends, k);
            let j = choose|j: int| 0 <= j < g[a].len() && #[trigger] g[a][j] == (b as usize, k as usize);
            assert(g[a][j].1 == k as usize);
            assert(0 <= a < n && 0 <= b < n);
        }
    }
}

} // verus!
