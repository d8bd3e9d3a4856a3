//! Re-rooting a symbol graph at a path: the same nodes and edges, read
//! outward from the symbols under one directory or file.
use vstd::prelude::*;

use super::cycles::{mark_cycle_edges, spec_cycle_edges};
use super::roots::{find_roots, spec_find_roots};
use super::{edge_ends, id_index, index_of_id, Edge, Node, SymbolGraph};
use crate::text::{has_prefix, str_to_chars};

verus! {

/// `s` without its trailing `/` characters.
pub open spec fn trim_trailing_slashes(s: Seq<char>) -> Seq<char>
    decreases s.len(),
{
    if s.len() > 0 && s.last() == '/' {
        trim_trailing_slashes(s.drop_last())
    } else {
        s
    }
}

/// Whether `path` lies under `prefix`, on a directory boundary: the
/// prefix (trailing slashes aside) is empty, equals the path, or is
/// followed in the path by a `/`.
pub open spec fn spec_path_under_prefix(path: Seq<char>, prefix: Seq<char>) -> bool {
    let p = trim_trailing_slashes(prefix);
    p.len() == 0 || path == p || has_prefix(path, p.push('/'))
}

proof fn lemma_trim_take(s: Seq<char>, n: int)
    requires
        0 <= n < s.len(),
        s.take(n + 1).last() == '/',
    ensures
        trim_trailing_slashes(s.take(n + 1)) == trim_trailing_slashes(s.take(n)),
{
    assert(s.take(n + 1).drop_last() =~= s.take(n));
}

/// Whether `path` is under `path_prefix`, respecting directory
/// boundaries: `"src/api"` matches `"src/api/handler.rs"` and `"src/api"`
/// itself, but not `"src/api2/handler.rs"`. An empty prefix matches every
/// path.
pub fn path_under_prefix(path: &str, path_prefix: &str) -> (r: bool)
    ensures
        r == spec_path_under_prefix(path@, path_prefix@),
{
    let p = str_to_chars(path_prefix);
    let mut n: usize = p.len();
    assert(p@.take(n as int) =~= p@);
    while n > 0 && p[n - 1] == '/'
        invariant
            n <= p@.len(),
            trim_trailing_slashes(p@) == trim_trailing_slashes(p@.take(n as int)),
        decreases n,
    {
        proof {
            lemma_trim_take(p@, n - 1);
        }
        n -= 1;
    }
    let ghost t = p@.take(n as int);
    assert(trim_trailing_slashes(t) == t) by {
        if t.len() > 0 {
            assert(t.last() == p@[n - 1]);
        }
    }
    if n == 0 {
        return true;
    }
    let s = str_to_chars(path);
    if s.len() < n {
        assert(s@ != t);
        return false;
    }
    let mut i: usize = 0;
    while i < n
        invariant
            i <= n <= s@.len(),
            n <= p@.len(),
            t == p@.take(n as int),
            t.len() == n,
            trim_trailing_slashes(path_prefix@) == t,
            s@ == path@,
            forall|j: int| 0 <= j < i ==> s@[j] == p@[j],
        decreases n - i,
    {
        if s[i] != p[i] {
            assert(s@[i as int] != t[i as int]);
            proof {
                if s@.len() > n {
                    assert(s@.take(n + 1)[i as int] != t.push('/')[i as int]);
                }
            }
            return false;
        }
        i += 1;
    }
    assert(s@.take(n as int) =~= t);
    if s.len() == n {
        assert(s@ =~= t);
        true
    } else {
        let r = s[n] == '/';
        if r {
            assert(s@.take(n + 1) =~= t.push('/'));
        } else {
            assert(s@.take(n + 1)[n as int] != t.push('/')[n as int]);
            assert(s@ != t);
        }
        r
    }
}

proof fn lemma_trim_directory(d: Seq<char>, extra: nat)
    requires
        d.len() == 0 || d.last() != '/',
    ensures
        trim_trailing_slashes(d + Seq::new(extra, |i: int| '/')) == d,
    decreases extra,
{
    let s = d + Seq::new(extra, |i: int| '/');
    if extra == 0 {
        assert(s =~= d);
    } else {
        assert(s.last() == '/');
        assert(s.drop_last() =~= d + Seq::new((extra - 1) as nat, |i: int| '/'));
        lemma_trim_directory(d, (extra - 1) as nat);
    }
}

/// A path lies under a directory however deep below it: for a non-empty
/// directory `d`, written with any number of trailing slashes, `d` itself
/// and every path `d/...` lie under it, while a path that continues `d`
/// with anything but `/` (`src/api2` against `src/api`) does not.
pub proof fn law_paths_below_a_directory_lie_under_it(d: Seq<char>, extra: nat, rest: Seq<char>, x: char)
    requires
        d.len() > 0,
        d.last() != '/',
        x != '/',
    ensures
        spec_path_under_prefix(d, d + Seq::new(extra, |i: int| '/')),
        spec_path_under_prefix(d.push('/') + rest, d + Seq::new(extra, |i: int| '/')),
        !spec_path_under_prefix(d.push(x) + rest, d + Seq::new(extra, |i: int| '/')),
{
    lemma_trim_directory(d, extra);
    let below = d.push('/') + rest;
    assert(below.take(d.len() as int + 1) =~= d.push('/'));
    let beside = d.push(x) + rest;
    assert(beside[d.len() as int] == x);
    assert(beside.len() > d.len());
    if has_prefix(beside, d.push('/')) {
        assert(beside.take(d.len() as int + 1)[d.len() as int] == d.push('/')[d.len() as int]);
    }
}

/// The empty prefix (or one of slashes only) holds every path.
pub proof fn law_every_path_lies_under_the_empty_prefix(path: Seq<char>, extra: nat)
    ensures
        spec_path_under_prefix(path, Seq::new(extra, |i: int| '/')),
{
    lemma_trim_directory(Seq::<char>::empty(), extra);
    assert(Seq::<char>::empty() + Seq::new(extra, |i: int| '/') =~= Seq::new(extra, |i: int| '/'));
}

/// The nodes whose path lies under `prefix`, in order.
pub open spec fn nodes_under(nodes: Seq<Node>, prefix: Seq<char>) -> Seq<Node>
    decreases nodes.len(),
{
    if nodes.len() == 0 {
        seq![]
    } else {
        let prev = nodes_under(nodes.drop_last(), prefix);
        if spec_path_under_prefix(nodes.last().path@, prefix) {
            prev.push(nodes.last())
        } else {
            prev
        }
    }
}

/// The edges whose two ends are both ids of nodes in `sub`, in order.
pub open spec fn edges_within(edges: Seq<Edge>, sub: Seq<Node>) -> Seq<Edge>
    decreases edges.len(),
{
    if edges.len() == 0 {
        seq![]
    } else {
        let prev = edges_within(edges.drop_last(), sub);
        let e = edges.last();
        if id_index(sub, e.from@) is Some && id_index(sub, e.to@) is Some {
            prev.push(e)
        } else {
            prev
        }
    }
}

/// The roots of the graph read from `prefix`: the roots of the subgraph
/// of nodes under it and the edges among them.
pub open spec fn spec_pivot_roots(nodes: Seq<Node>, edges: Seq<Edge>, prefix: Seq<char>) -> Seq<
    String,
> {
    let sub = nodes_under(nodes, prefix);
    spec_find_roots(sub, edges_within(edges, sub))
}

/// A node equal to `n`.
pub fn copy_node(n: &Node) -> (r: Node)
    ensures
        r == *n,
{
    Node { id: n.id.clone(), path: n.path.clone(), name: n.name.clone() }
}

/// An edge equal to `e`.
pub fn copy_edge(e: &Edge) -> (r: Edge)
    ensures
        r == *e,
{
    Edge { from: e.from.clone(), to: e.to.clone(), is_cycle: e.is_cycle }
}

/// Computes the pivoted roots for `path_prefix`: among the nodes under
/// it, those that no other node under it depends on, by the same
/// strongly-connected-component rule as the whole graph's roots, so a
/// cycle inside the subset still yields one root. Edges arriving from
/// outside the subset are ignored. Empty when no node is under the prefix.
pub fn pivot_roots(graph: &SymbolGraph, path_prefix: &str) -> (roots: Vec<String>)
    ensures
        roots@ == spec_pivot_roots(graph.nodes@, graph.edges@, path_prefix@),
{
    let mut sub: Vec<Node> = Vec::new();
    let mut k: usize = 0;
    while k < graph.nodes.len()
        invariant
            k <= graph.nodes@.len(),
            sub@ == nodes_under(graph.nodes@.take(k as int), path_prefix@),
        decreases graph.nodes.len() - k,
    {
        assert(graph.nodes@.take(k + 1).drop_last() =~= graph.nodes@.take(k as int));
        assert(graph.nodes@.take(k + 1).last() == graph.nodes@[k as int]);
        let node = &graph.nodes[k];
        if path_under_prefix(node.path.as_str(), path_prefix) {
            sub.push(copy_node(node));
        }
        k += 1;
    }
    assert(graph.nodes@.take(k as int) =~= graph.nodes@);
    if sub.len() == 0 {
        return Vec::new();
    }
    let mut within: Vec<Edge> = Vec::new();
    let mut j: usize = 0;
    while j < graph.edges.len()
        invariant
            j <= graph.edges@.len(),
            within@ == edges_within(graph.edges@.take(j as int), sub@),
        decreases graph.edges.len() - j,
    {
        assert(graph.edges@.take(j + 1).drop_last() =~= graph.edges@.take(j as int));
        assert(graph.edges@.take(j + 1).last() == graph.edges@[j as int]);
        let e = &graph.edges[j];
        if index_of_id(sub.as_slice(), &e.from).is_some() && index_of_id(
            sub.as_slice(),
            &e.to,
        ).is_some() {
            within.push(copy_edge(e));
        }
        j += 1;
    }
    assert(graph.edges@.take(j as int) =~= graph.edges@);
    find_roots(sub.as_slice(), within.as_slice())
}

/// At most as many nodes lie under a prefix as there are nodes.
proof fn lemma_nodes_under_len(nodes: Seq<Node>, prefix: Seq<char>)
    ensures
        nodes_under(nodes, prefix).len() <= nodes.len(),
    decreases nodes.len(),
{
    if nodes.len() > 0 {
        lemma_nodes_under_len(nodes.drop_last(), prefix);
    }
}

/// At most as many edges lie within a subset as there are edges.
proof fn lemma_edges_within_len(edges: Seq<Edge>, sub: Seq<Node>)
    ensures
        edges_within(edges, sub).len() <= edges.len(),
    decreases edges.len(),
{
    if edges.len() > 0 {
        lemma_edges_within_len(edges.drop_last(), sub);
    }
}

/// Edges that differ only in their cycle marks describe the same graph.
proof fn lemma_cycle_edges_ignore_marks(nodes: Seq<Node>, roots: Seq<String>, a: Seq<Edge>, b: Seq<Edge>)
    requires
        a.len() == b.len(),
        forall|k: int| 0 <= k < a.len() ==> (#[trigger] a[k]).from == b[k].from && a[k].to == b[k].to,
    ensures
        spec_cycle_edges(nodes, roots, a) == spec_cycle_edges(nodes, roots, b),
{
    assert(super::roots::all_edge_ends(nodes, a) =~= super::roots::all_edge_ends(nodes, b)) by {
        assert forall|k: int| 0 <= k < a.len() implies edge_ends(nodes, a[k]) == edge_ends(nodes, b[k]) by {
            assert(a[k].from == b[k].from && a[k].to == b[k].to);
        }
    }
}

/// Re-roots `graph` at `path_prefix`. When no node lies under the prefix
/// the graph comes back unchanged, with no roots. Otherwise the nodes and
/// edges are kept, the roots become [`pivot_roots`]'s, and the cycle
/// marks are computed afresh: an edge is a cycle edge exactly when it is
/// a back edge of the walk from the new roots.
pub fn pivot_graph(graph: &SymbolGraph, path_prefix: &str) -> (pivoted: SymbolGraph)
    ensures
        pivoted.nodes@ == graph.nodes@,
        pivoted.roots@ == spec_pivot_roots(graph.nodes@, graph.edges@, path_prefix@),
        (pivoted.roots@.len() == 0) == (nodes_under(graph.nodes@, path_prefix@).len() == 0),
        nodes_under(graph.nodes@, path_prefix@).len() == 0 ==> pivoted.edges@ == graph.edges@,
        nodes_under(graph.nodes@, path_prefix@).len() > 0 ==> {
            &&& pivoted.edges@.len() == graph.edges@.len()
            &&& forall|k: int|
                0 <= k < graph.edges@.len() ==> #[trigger] pivoted.edges@[k] == (Edge {
                    is_cycle: spec_cycle_edges(graph.nodes@, pivoted.roots@, graph.edges@).contains(
                        k as usize,
                    ),
                    ..graph.edges@[k]
                })
        },
{
    let roots = pivot_roots(graph, path_prefix);
    let node_count = graph.nodes.len();
    let edge_count = graph.edges.len();
    proof {
        assert(graph.nodes@.len() == node_count && graph.edges@.len() == edge_count);
        let sub = nodes_under(graph.nodes@, path_prefix@);
        lemma_nodes_under_len(graph.nodes@, path_prefix@);
        lemma_edges_within_len(graph.edges@, sub);
        if sub.len() > 0 {
            super::roots::law_find_roots_cover_every_node(sub, edges_within(graph.edges@, sub), 0);
        }
    }
    let fresh = roots.len() > 0;
    let mut edges: Vec<Edge> = Vec::new();
    let mut j: usize = 0;
    while j < graph.edges.len()
        invariant
            j <= graph.edges@.len(),
            edges@.len() == j,
            forall|k: int|
                0 <= k < j ==> #[trigger] edges@[k] == (if fresh {
                    Edge { is_cycle: false, ..graph.edges@[k] }
                } else {
                    graph.edges@[k]
                }),
        decreases graph.edges.len() - j,
    {
        let mut e = copy_edge(&graph.edges[j]);
        if fresh {
            e.is_cycle = false;
        }
        edges.push(e);
        j += 1;
    }
    let mut nodes: Vec<Node> = Vec::new();
    let mut k: usize = 0;
    while k < graph.nodes.len()
        invariant
            k <= graph.nodes@.len(),
            nodes@ == graph.nodes@.take(k as int),
        decreases graph.nodes.len() - k,
    {
        nodes.push(copy_node(&graph.nodes[k]));
        k += 1;
        assert(nodes@ =~= graph.nodes@.take(k as int));
    }
    assert(nodes@ =~= graph.nodes@);
    if !fresh {
        assert(edges@ =~= graph.edges@);
        return SymbolGraph { nodes, edges, roots };
    }
    let ghost reset = edges@;
    proof {
        lemma_cycle_edges_ignore_marks(graph.nodes@, roots@, reset, graph.edges@);
    }
    mark_cycle_edges(nodes.as_slice(), roots.as_slice(), &mut edges);
    SymbolGraph { nodes, edges, roots }
}

// ---------------------------------------------------------------------
// Laws.
// ---------------------------------------------------------------------

proof fn lemma_nodes_under(nodes: Seq<Node>, prefix: Seq<char>, i: int)
    requires
        0 <= i < nodes_under(nodes, prefix).len(),
    ensures
        spec_path_under_prefix(nodes_under(nodes, prefix)[i].path@, prefix),
        exists|r: int| 0 <= r < nodes.len() && #[trigger] nodes[r] == nodes_under(nodes, prefix)[i],
    decreases nodes.len(),
{
    let prev = nodes_under(nodes.drop_last(), prefix);
    if i < prev.len() {
        lemma_nodes_under(nodes.drop_last(), prefix, i);
        assert(nodes_under(nodes, prefix)[i] == prev[i]);
        let r = choose|r: int| 0 <= r < nodes.drop_last().len() && #[trigger] nodes.drop_last()[r] == prev[i];
        assert(nodes[r] == nodes.drop_last()[r]);
    } else {
        assert(nodes[nodes.len() - 1] == nodes_under(nodes, prefix)[i]);
    }
}

/// Whether `id` is the id of a node whose path lies under `prefix`.
pub open spec fn names_node_under(nodes: Seq<Node>, prefix: Seq<char>, id: String) -> bool {
    exists|r: int|
        0 <= r < nodes.len() && spec_path_under_prefix(nodes[r].path@, prefix) && #[trigger] nodes[r].id
            == id
}

/// Every root of a pivoted graph is the id of a node whose path lies under
/// the pivot prefix; with no node under it, there are no roots.
pub proof fn law_pivot_roots_lie_under_prefix(nodes: Seq<Node>, edges: Seq<Edge>, prefix: Seq<char>)
    ensures
        forall|k: int|
            0 <= k < spec_pivot_roots(nodes, edges, prefix).len() ==> names_node_under(
                nodes,
                prefix,
                #[trigger] spec_pivot_roots(nodes, edges, prefix)[k],
            ),
        nodes_under(nodes, prefix).len() == 0 ==> spec_pivot_roots(nodes, edges, prefix).len() == 0,
{
    let sub = nodes_under(nodes, prefix);
    let within = edges_within(edges, sub);
    let roots = spec_pivot_roots(nodes, edges, prefix);
    assert(roots == spec_find_roots(sub, within));
    assert forall|k: int| 0 <= k < roots.len() implies names_node_under(nodes, prefix, #[trigger] roots[k]) by {
        super::roots::law_roots_are_node_ids(sub, within, k);
        let q = choose|q: int| 0 <= q < sub.len() && #[trigger] sub[q].id == spec_find_roots(sub, within)[k];
        lemma_nodes_under(nodes, prefix, q);
        let r = choose|r: int| 0 <= r < nodes.len() && #[trigger] nodes[r] == sub[q];
        assert(nodes[r].id == roots[k]);
    }
}


proof fn lemma_nodes_under_everything(nodes: Seq<Node>, prefix: Seq<char>)
    requires
        trim_trailing_slashes(prefix).len() == 0,
    ensures
        nodes_under(nodes, prefix) == nodes,
    decreases nodes.len(),
{
    if nodes.len() > 0 {
        lemma_nodes_under_everything(nodes.drop_last(), prefix);
        assert(nodes.drop_last().push(nodes.last()) =~= nodes);
    }
}

proof fn lemma_edges_within_all(edges: Seq<Edge>, nodes: Seq<Node>)
    ensures
        edges_within(edges, nodes).len() <= edges.len(),
        forall|k2: int|
            0 <= k2 < edges_within(edges, nodes).len() ==> edge_ends(
                nodes,
                #[trigger] edges_within(edges, nodes)[k2],
            ) is Some && exists|k: int| 0 <= k < edges.len() && edges[k] == edges_within(edges, nodes)[k2],
        forall|k: int|
            0 <= k < edges.len() && edge_ends(nodes, #[trigger] edges[k]) is Some ==> exists|k2: int|
                0 <= k2 < edges_within(edges, nodes).len() && edges_within(edges, nodes)[k2] == edges[k],
    decreases edges.len(),
{
    if edges.len() > 0 {
        lemma_edges_within_all(edges.drop_last(), nodes);
        let prev = edges_within(edges.drop_last(), nodes);
        let cur = edges_within(edges, nodes);
        let e = edges.last();
        assert forall|k2: int| 0 <= k2 < cur.len() implies edge_ends(nodes, #[trigger] cur[k2]) is Some
            && exists|k: int| 0 <= k < edges.len() && edges[k] == cur[k2] by {
            if k2 < prev.len() {
                assert(cur[k2] == prev[k2]);
                let k = choose|k: int| 0 <= k < edges.drop_last().len() && edges.drop_last()[k] == prev[k2];
                assert(edges[k] == prev[k2]);
            } else {
                assert(edges[edges.len() - 1] == cur[k2]);
            }
        }
        assert forall|k: int| 0 <= k < edges.len() && edge_ends(nodes, #[trigger] edges[k]) is Some implies exists|k2: int|
            0 <= k2 < cur.len() && cur[k2] == edges[k] by {
            if k < edges.len() - 1 {
                assert(edges.drop_last()[k] == edges[k]);
                let k2 = choose|k2: int| 0 <= k2 < prev.len() && prev[k2] == edges.drop_last()[k];
                assert(cur[k2] == prev[k2]);
            } else {
                assert(cur[cur.len() - 1] == e);
            }
        }
    }
}

/// Pivoting at the empty prefix (or one of only slashes) reads the graph
/// from the same roots as the whole graph.
pub proof fn law_pivot_at_empty_prefix_is_the_whole_graph(nodes: Seq<Node>, edges: Seq<Edge>, prefix: Seq<char>)
    requires
        trim_trailing_slashes(prefix).len() == 0,
        nodes.len() <= usize::MAX,
        edges.len() <= usize::MAX,
    ensures
        spec_pivot_roots(nodes, edges, prefix) == spec_find_roots(nodes, edges),
{
    lemma_nodes_under_everything(nodes, prefix);
    let w = edges_within(edges, nodes);
    lemma_edges_within_all(edges, nodes);
    let n = nodes.len();
    let ew = super::roots::all_edge_ends(nodes, w);
    let ee = super::roots::all_edge_ends(nodes, edges);
    super::roots::lemma_all_edge_ends_in_range_pub(nodes, w);
    super::roots::lemma_all_edge_ends_in_range_pub(nodes, edges);
    super::roots::lemma_build_adjacency(n, ew, false);
    super::roots::lemma_build_adjacency(n, ee, false);
    let g1 = super::roots::graph_of(nodes, w);
    let g2 = super::roots::graph_of(nodes, edges);
    assert forall|u: int, v: int| #[trigger] super::reach::has_edge(g1, u, v) == super::reach::has_edge(g2, u, v) by {
        if super::reach::has_edge(g1, u, v) {
            let k2 = choose|k2: int| 0 <= k2 < ew.len() && #[trigger] ew[k2] == Some((u, v));
            let k = choose|k: int| 0 <= k < edges.len() && edges[k] == w[k2];
            assert(ee[k] == Some((u, v)));
        }
        if super::reach::has_edge(g2, u, v) {
            let k = choose|k: int| 0 <= k < ee.len() && #[trigger] ee[k] == Some((u, v));
            assert(edge_ends(nodes, edges[k]) is Some);
            let k2 = choose|k2: int| 0 <= k2 < w.len() && w[k2] == edges[k];
            assert(ew[k2] == Some((u, v)));
        }
    }
    super::roots::lemma_same_edges_same_roots(nodes, w, edges);
}

} // verus!
