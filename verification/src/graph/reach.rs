//! Reachability and strongly connected components over an adjacency list.
//!
//! A graph is an adjacency list `g` over nodes `0..g.len()`: `g[u]` lists
//! the outgoing edges of `u` in order, each as `(target, edge_index)`.
use vstd::prelude::*;

verus! {

pub type Adjacency = Seq<Seq<(usize, usize)>>;

/// Every edge target is a node of the graph.
pub open spec fn well_formed(g: Adjacency) -> bool {
    forall|u: int, j: int|
        0 <= u < g.len() && 0 <= j < g[u].len() ==> (#[trigger] g[u][j]).0 < g.len()
}

/// There is an edge from `u` to `v`.
pub open spec fn has_edge(g: Adjacency, u: int, v: int) -> bool {
    0 <= u < g.len() && 0 <= v < g.len() && exists|j: int|
        0 <= j < g[u].len() && (#[trigger] g[u][j]).0 == v
}

/// `p` is a walk along edges of `g`.
pub open spec fn is_path(g: Adjacency, p: Seq<int>) -> bool {
    &&& p.len() > 0
    &&& 0 <= p[0] < g.len()
    &&& forall|i: int| 0 <= i < p.len() - 1 ==> has_edge(g, #[trigger] p[i], p[i + 1])
}

/// `v` can be reached from `u` by following zero or more edges.
pub open spec fn reaches(g: Adjacency, u: int, v: int) -> bool {
    exists|p: Seq<int>| is_path(g, p) && p[0] == u && p.last() == v
}

/// `u` and `v` lie in the same strongly connected component.
pub open spec fn same_scc(g: Adjacency, u: int, v: int) -> bool {
    reaches(g, u, v) && reaches(g, v, u)
}

pub proof fn lemma_reaches_refl(g: Adjacency, u: int)
    requires
        0 <= u < g.len(),
    ensures
        reaches(g, u, u),
{
    let p = seq![u];
    assert(is_path(g, p) && p[0] == u && p.last() == u);
}

pub proof fn lemma_reaches_edge(g: Adjacency, u: int, v: int)
    requires
        has_edge(g, u, v),
    ensures
        reaches(g, u, v),
{
    let p = seq![u, v];
    assert(p[0] == u && p[1] == v);
    assert(is_path(g, p) && p[0] == u && p.last() == v);
}

pub proof fn lemma_reaches_trans(g: Adjacency, u: int, v: int, w: int)
    requires
        reaches(g, u, v),
        reaches(g, v, w),
    ensures
        reaches(g, u, w),
{
    let p = choose|p: Seq<int>| is_path(g, p) && p[0] == u && p.last() == v;
    let q = choose|q: Seq<int>| is_path(g, q) && q[0] == v && q.last() == w;
    let r = p + q.skip(1);
    assert forall|i: int| 0 <= i < r.len() - 1 implies has_edge(g, #[trigger] r[i], r[i + 1]) by {
        if i < p.len() - 1 {
            assert(r[i] == p[i] && r[i + 1] == p[i + 1]);
        } else if i == p.len() - 1 {
            assert(r[i] == q[0]);
            assert(r[i + 1] == q[1]);
        } else {
            let k = i - p.len() + 1;
            assert(r[i] == q[k] && r[i + 1] == q[k + 1]);
        }
    }
    assert(is_path(g, r));
    if q.len() == 1 {
        assert(r =~= p);
    } else {
        assert(r.last() == q.last());
    }
}

pub proof fn lemma_reaches_in_range(g: Adjacency, u: int, v: int)
    requires
        reaches(g, u, v),
    ensures
        0 <= u < g.len(),
        0 <= v < g.len(),
{
    let p = choose|p: Seq<int>| is_path(g, p) && p[0] == u && p.last() == v;
    if p.len() > 1 {
        assert(has_edge(g, p[p.len() - 2], p[p.len() - 1]));
    }
}

/// A set of nodes closed under edges contains everything reachable from
/// any of its members.
pub proof fn lemma_closed_set_contains_reachable(g: Adjacency, in_set: Seq<bool>, u: int, v: int)
    requires
        in_set.len() == g.len(),
        0 <= u < g.len(),
        in_set[u],
        forall|a: int, b: int| 0 <= a < g.len() && in_set[a] && has_edge(g, a, b) ==> in_set[b],
        reaches(g, u, v),
    ensures
        in_set[v],
{
    let p = choose|p: Seq<int>| is_path(g, p) && p[0] == u && p.last() == v;
    lemma_closed_set_contains_path_prefix(g, in_set, p, p.len() - 1);
}

proof fn lemma_closed_set_contains_path_prefix(g: Adjacency, in_set: Seq<bool>, p: Seq<int>, i: int)
    requires
        in_set.len() == g.len(),
        is_path(g, p),
        in_set[p[0]],
        0 <= i < p.len(),
        forall|a: int, b: int| 0 <= a < g.len() && in_set[a] && has_edge(g, a, b) ==> in_set[b],
    ensures
        in_set[p[i]],
        0 <= p[i] < g.len(),
    decreases i,
{
    if i > 0 {
        lemma_closed_set_contains_path_prefix(g, in_set, p, i - 1);
        assert(has_edge(g, p[i - 1], p[i]));
    }
}

/// The graph with every edge reversed.
pub open spec fn reversed(g: Adjacency, r: Adjacency) -> bool {
    &&& r.len() == g.len()
    &&& forall|u: int, v: int| has_edge(r, u, v) <==> has_edge(g, v, u)
}

pub proof fn lemma_reversed_reaches(g: Adjacency, r: Adjacency, u: int, v: int)
    requires
        reversed(g, r),
        reaches(r, u, v),
    ensures
        reaches(g, v, u),
{
    let p = choose|p: Seq<int>| is_path(r, p) && p[0] == u && p.last() == v;
    let q = p.reverse();
    assert forall|i: int| 0 <= i < q.len() - 1 implies has_edge(g, #[trigger] q[i], q[i + 1]) by {
        let j = p.len() - 2 - i;
        assert(q[i] == p[j + 1] && q[i + 1] == p[j]);
        assert(has_edge(r, p[j], p[j + 1]));
    }
    lemma_reaches_in_range(r, u, v);
    assert(q[0] == v && q.last() == u);
    assert(is_path(g, q) && q[0] == v && q.last() == u);
}

/// The number of `true` entries in `s`.
pub open spec fn count_true(s: Seq<bool>) -> nat
    decreases s.len(),
{
    if s.len() == 0 {
        0
    } else {
        count_true(s.drop_last()) + if s.last() {
            1nat
        } else {
            0nat
        }
    }
}

proof fn lemma_count_true_bound(s: Seq<bool>)
    ensures
        count_true(s) <= s.len(),
    decreases s.len(),
{
    if s.len() > 0 {
        lemma_count_true_bound(s.drop_last());
    }
}

proof fn lemma_count_true_update(s: Seq<bool>, i: int)
    requires
        0 <= i < s.len(),
        !s[i],
    ensures
        count_true(s.update(i, true)) == count_true(s) + 1,
    decreases s.len(),
{
    let t = s.update(i, true);
    if i == s.len() - 1 {
        assert(t.drop_last() =~= s.drop_last());
    } else {
        assert(t.drop_last() =~= s.drop_last().update(i, true));
        lemma_count_true_update(s.drop_last(), i);
    }
}

pub open spec fn adjacency_view(adj: Seq<Vec<(usize, usize)>>) -> Adjacency {
    adj.map_values(|row: Vec<(usize, usize)>| row@)
}

/// Which nodes are reachable from `s`, by depth-first search.
pub fn reachable_from(adj: &Vec<Vec<(usize, usize)>>, s: usize) -> (seen: Vec<bool>)
    requires
        well_formed(adjacency_view(adj@)),
        s < adj.len(),
    ensures
        seen@.len() == adj@.len(),
        forall|v: int| 0 <= v < adj@.len() ==> seen@[v] == reaches(adjacency_view(adj@), s as int, v),
{
    let ghost g = adjacency_view(adj@);
    let n = adj.len();
    let mut seen: Vec<bool> = vec![false; n];
    seen.set(s, true);
    let mut stack: Vec<usize> = vec![s];
    let ghost mut nseen: nat = 1;
    proof {
        assert(seen@ =~= Seq::new(n as nat, |i: int| false).update(s as int, true));
        lemma_count_true_update(Seq::new(n as nat, |i: int| false), s as int);
        assert(count_true(Seq::new(n as nat, |i: int| false)) == 0) by {
            lemma_count_true_zero(n as nat);
        }
        lemma_reaches_refl(g, s as int);
    }
    while stack.len() > 0
        invariant
            g == adjacency_view(adj@),
            well_formed(g),
            n == adj@.len(),
            s < n,
            seen@.len() == n,
            seen@[s as int],
            nseen == count_true(seen@),
            nseen <= n,
            stack@.len() <= nseen,
            forall|v: int| 0 <= v < n && seen@[v] ==> reaches(g, s as int, v),
            forall|k: int| 0 <= k < stack@.len() ==> (#[trigger] stack@[k]) < n && seen@[stack@[k] as int],
            forall|a: int, b: int|
                0 <= a < n && seen@[a] && !stack@.contains(a as usize) && has_edge(g, a, b)
                    ==> seen@[b],
        decreases 2 * (n - nseen) + stack@.len(),
    {
        let ghost old_stack = stack@;
        let u = stack.pop().unwrap();
        let ghost m1 = 2 * (n - nseen) + stack@.len();
        proof {
            assert(old_stack =~= stack@.push(u));
            assert forall|a: int| #![trigger old_stack.contains(a as usize)] 0 <= a < n && a != u && !stack@.contains(a as usize) implies !old_stack.contains(
                a as usize,
            ) by {
                if old_stack.contains(a as usize) {
                    let k = choose|k: int| 0 <= k < old_stack.len() && old_stack[k] == a as usize;
                    if k < stack@.len() {
                        assert(stack@[k] == a as usize);
                    }
                }
            }
        }
        let row = &adj[u];
        assert(row@ == g[u as int]);
        let mut j: usize = 0;
        while j < row.len()
            invariant
                g == adjacency_view(adj@),
                well_formed(g),
                n == adj@.len(),
                u < n,
                row@ == g[u as int],
                j <= row@.len(),
                seen@.len() == n,
                seen@[u as int],
                seen@[s as int],
                nseen == count_true(seen@),
                nseen <= n,
                2 * (n - nseen) + stack@.len() <= m1,
                stack@.len() <= nseen,
                forall|v: int| 0 <= v < n && seen@[v] ==> reaches(g, s as int, v),
                forall|k: int|
                    0 <= k < stack@.len() ==> (#[trigger] stack@[k]) < n && seen@[stack@[k] as int],
                forall|q: int| 0 <= q < j ==> seen@[(#[trigger] row@[q]).0 as int],
                forall|a: int, b: int|
                    0 <= a < n && a != u && seen@[a] && !stack@.contains(a as usize) && has_edge(
                        g,
                        a,
                        b,
                    ) ==> seen@[b],
            decreases row@.len() - j,
        {
            let v = row[j].0;
            assert(g[u as int][j as int] == row@[j as int]);
            if !seen[v] {
                proof {
                    lemma_count_true_update(seen@, v as int);
                    assert(has_edge(g, u as int, v as int));
                    lemma_reaches_edge(g, u as int, v as int);
                    lemma_reaches_trans(g, s as int, u as int, v as int);
                    nseen = nseen + 1;
                }
                let ghost old_seen = seen@;
                let ghost old_st = stack@;
                seen.set(v, true);
                stack.push(v);
                proof {
                    lemma_count_true_bound(seen@);
                    assert forall|a: int| #![trigger old_st.contains(a as usize)] 0 <= a < n && !stack@.contains(a as usize) implies !old_st.contains(
                        a as usize,
                    ) && a != v by {
                        if old_st.contains(a as usize) {
                            let k = choose|k: int| 0 <= k < old_st.len() && old_st[k] == a as usize;
                            assert(stack@[k] == a as usize);
                        }
                        if a == v {
                            assert(stack@[stack@.len() - 1] == v);
                        }
                    }
                    assert forall|a: int| 0 <= a < n && #[trigger] old_seen[a] implies seen@[a] by {}
                    assert forall|a: int, b: int|
                        0 <= a < n && a != u && seen@[a] && !stack@.contains(a as usize)
                            && has_edge(g, a, b) implies seen@[b] by {
                        assert(!old_st.contains(a as usize) && a != v);
                        assert(old_seen[a]);
                        assert(old_seen[b]);
                    }
                }
            }
            j += 1;
        }
        proof {
            assert forall|a: int, b: int|
                0 <= a < n && seen@[a] && !stack@.contains(a as usize) && has_edge(
                    g,
                    a,
                    b,
                ) implies seen@[b] by {
                if a == u {
                    let q = choose|q: int| 0 <= q < g[a].len() && (#[trigger] g[a][q]).0 == b;
                    assert(row@[q].0 == b);
                }
            }
            lemma_count_true_bound(seen@);
        }
    }
    proof {
        assert forall|v: int| 0 <= v < n implies seen@[v] == reaches(g, s as int, v) by {
            if reaches(g, s as int, v) {
                lemma_closed_set_contains_reachable(g, seen@, s as int, v);
            }
        }
    }
    seen
}

proof fn lemma_count_true_zero(n: nat)
    ensures
        count_true(Seq::new(n, |i: int| false)) == 0,
    decreases n,
{
    if n > 0 {
        assert(Seq::new(n, |i: int| false).drop_last() =~= Seq::new((n - 1) as nat, |i: int| false));
        lemma_count_true_zero((n - 1) as nat);
    }
}

} // verus!
