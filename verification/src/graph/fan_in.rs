//! Fan-in: changed symbols that several other changed symbols depend on.
use vstd::prelude::*;

use super::{id_index, index_of_id, Edge, Node, SymbolGraph};
use crate::sort::{
    is_sorted, lemma_lex_antisym, lemma_lex_total, lemma_lex_trans, lemma_sort_seq_permutation_map,
    lemma_sort_seq_sorted, lex_le, lex_lt, sort_seq, stable_sort, str_le, SortKey,
};

verus! {

/// A node with at least this many distinct referrers is reported as a
/// [`FanIn`].
pub const HIGH_FAN_IN_THRESHOLD: usize = 2;

/// A changed symbol with two or more distinct referrers: changing its
/// signature has a wider blast radius than a symbol only one other changed
/// symbol depends on.
#[derive(Debug, Clone, PartialEq, Eq)]
pub struct FanIn {
    pub id: String,
    pub path: String,
    pub name: String,
    /// Names of every changed symbol referencing this node, sorted
    /// ascending; one entry per referrer node, so two referrers sharing a
    /// name both appear.
    pub used_by: Vec<String>,
}

/// The character sequences of `v`'s strings.
pub open spec fn views(v: Seq<String>) -> Seq<Seq<char>> {
    v.map_values(|s: String| s@)
}

/// The ids of `v`'s entries.
pub open spec fn fan_in_ids(v: Seq<FanIn>) -> Seq<Seq<char>> {
    v.map_values(|f: FanIn| f.id@)
}

proof fn lemma_lex_lt_le(a: Seq<char>, b: Seq<char>, c: Seq<char>)
    requires
        lex_le(a, b),
        lex_le(b, c),
        lex_lt(a, b) || lex_lt(b, c),
    ensures
        lex_lt(a, c),
{
    lemma_lex_trans(a, b, c);
    if a == c {
        lemma_lex_antisym(a, b);
        lemma_lex_antisym(b, c);
    }
}

/// Fan-ins are ordered by referrer count, most first, then by path, name
/// and id ascending.
impl SortKey for FanIn {
    open spec fn key_le(self, other: Self) -> bool {
        ||| self.used_by@.len() > other.used_by@.len()
        ||| self.used_by@.len() == other.used_by@.len() && (lex_lt(self.path@, other.path@) || (
        self.path@ == other.path@ && (lex_lt(self.name@, other.name@) || (self.name@ == other.name@
            && lex_le(self.id@, other.id@)))))
    }

    proof fn lemma_key_total(a: Self, b: Self) {
        lemma_lex_total(a.path@, b.path@);
        lemma_lex_total(a.name@, b.name@);
        lemma_lex_total(a.id@, b.id@);
    }

    proof fn lemma_key_trans(a: Self, b: Self, c: Self) {
        if a.used_by@.len() == b.used_by@.len() && b.used_by@.len() == c.used_by@.len() {
            if lex_lt(a.path@, b.path@) || lex_lt(b.path@, c.path@) {
                if a.path@ == b.path@ {
                } else if b.path@ == c.path@ {
                } else {
                    lemma_lex_lt_le(a.path@, b.path@, c.path@);
                }
            } else if lex_lt(a.name@, b.name@) || lex_lt(b.name@, c.name@) {
                if a.name@ == b.name@ {
                } else if b.name@ == c.name@ {
                } else {
                    lemma_lex_lt_le(a.name@, b.name@, c.name@);
                }
            } else {
                lemma_lex_trans(a.id@, b.id@, c.id@);
            }
        }
    }

    fn le(&self, other: &Self) -> (r: bool) {
        let a = self.used_by.len();
        let b = other.used_by.len();
        if a != b {
            return a > b;
        }
        let p1 = str_le(self.path.as_str(), other.path.as_str());
        let p2 = str_le(other.path.as_str(), self.path.as_str());
        if p1 != p2 {
            proof {
                if p1 && self.path@ == other.path@ {
                    assert(false);
                }
            }
            return p1;
        }
        proof {
            lemma_lex_total(self.path@, other.path@);
            lemma_lex_antisym(self.path@, other.path@);
        }
        let n1 = str_le(self.name.as_str(), other.name.as_str());
        let n2 = str_le(other.name.as_str(), self.name.as_str());
        if n1 != n2 {
            return n1;
        }
        proof {
            lemma_lex_total(self.name@, other.name@);
            lemma_lex_antisym(self.name@, other.name@);
        }
        str_le(self.id.as_str(), other.id.as_str())
    }
}

/// The distinct ids edges point to, in order of first appearance.
pub open spec fn target_ids(edges: Seq<Edge>) -> Seq<Seq<char>>
    decreases edges.len(),
{
    if edges.len() == 0 {
        seq![]
    } else {
        let prev = target_ids(edges.drop_last());
        let t = edges.last().to@;
        if prev.contains(t) {
            prev
        } else {
            prev.push(t)
        }
    }
}

/// The distinct ids of the edges into `t`'s sources, in order of first
/// appearance.
pub open spec fn referrer_ids(edges: Seq<Edge>, t: Seq<char>) -> Seq<Seq<char>>
    decreases edges.len(),
{
    if edges.len() == 0 {
        seq![]
    } else {
        let prev = referrer_ids(edges.drop_last(), t);
        let e = edges.last();
        if e.to@ == t && !prev.contains(e.from@) {
            prev.push(e.from@)
        } else {
            prev
        }
    }
}

/// The names of the nodes the ids `refs` name, in order; ids naming no
/// node are passed over.
pub open spec fn referrer_names(nodes: Seq<Node>, refs: Seq<Seq<char>>) -> Seq<Seq<char>>
    decreases refs.len(),
{
    if refs.len() == 0 {
        seq![]
    } else {
        let prev = referrer_names(nodes, refs.drop_last());
        match id_index(nodes, refs.last()) {
            Some(k) => prev.push(nodes[k].name@),
            None => prev,
        }
    }
}

/// The ids among `ts` that name a node and have at least
/// [`HIGH_FAN_IN_THRESHOLD`] distinct referrers.
pub open spec fn fan_in_targets(nodes: Seq<Node>, edges: Seq<Edge>, ts: Seq<Seq<char>>) -> Seq<
    Seq<char>,
>
    decreases ts.len(),
{
    if ts.len() == 0 {
        seq![]
    } else {
        let prev = fan_in_targets(nodes, edges, ts.drop_last());
        let t = ts.last();
        if referrer_ids(edges, t).len() >= HIGH_FAN_IN_THRESHOLD && id_index(nodes, t) is Some {
            prev.push(t)
        } else {
            prev
        }
    }
}

/// `f` describes the node its id names: that node's path and name, and
/// the sorted names of the nodes referring to it.
pub open spec fn describes(f: FanIn, nodes: Seq<Node>, edges: Seq<Edge>) -> bool {
    &&& id_index(nodes, f.id@) is Some
    &&& f.path@ == nodes[id_index(nodes, f.id@).unwrap()].path@
    &&& f.name@ == nodes[id_index(nodes, f.id@).unwrap()].name@
    &&& is_sorted(f.used_by@)
    &&& views(f.used_by@).to_multiset() == referrer_names(nodes, referrer_ids(edges, f.id@)).to_multiset()
}

fn contains_view(v: &Vec<String>, s: &String) -> (r: bool)
    ensures
        r == views(v@).contains(s@),
{
    let mut i: usize = 0;
    while i < v.len()
        invariant
            i <= v@.len(),
            forall|j: int| 0 <= j < i ==> v@[j]@ != s@,
        decreases v.len() - i,
    {
        if v[i] == *s {
            assert(views(v@)[i as int] == s@);
            return true;
        }
        i += 1;
    }
    false
}

fn distinct_targets(edges: &[Edge]) -> (ts: Vec<String>)
    ensures
        views(ts@) == target_ids(edges@),
{
    let mut ts: Vec<String> = Vec::new();
    let mut j: usize = 0;
    while j < edges.len()
        invariant
            j <= edges@.len(),
            views(ts@) == target_ids(edges@.take(j as int)),
        decreases edges.len() - j,
    {
        assert(edges@.take(j + 1).drop_last() =~= edges@.take(j as int));
        assert(edges@.take(j + 1).last() == edges@[j as int]);
        if !contains_view(&ts, &edges[j].to) {
            ts.push(edges[j].to.clone());
            assert(views(ts@) =~= target_ids(edges@.take(j + 1)));
        }
        j += 1;
    }
    assert(edges@.take(j as int) =~= edges@);
    ts
}

fn referrers_of(edges: &[Edge], t: &String) -> (rs: Vec<String>)
    ensures
        views(rs@) == referrer_ids(edges@, t@),
{
    let mut rs: Vec<String> = Vec::new();
    let mut j: usize = 0;
    while j < edges.len()
        invariant
            j <= edges@.len(),
            views(rs@) == referrer_ids(edges@.take(j as int), t@),
        decreases edges.len() - j,
    {
        assert(edges@.take(j + 1).drop_last() =~= edges@.take(j as int));
        assert(edges@.take(j + 1).last() == edges@[j as int]);
        if edges[j].to == *t && !contains_view(&rs, &edges[j].from) {
            rs.push(edges[j].from.clone());
            assert(views(rs@) =~= referrer_ids(edges@.take(j + 1), t@));
        }
        j += 1;
    }
    assert(edges@.take(j as int) =~= edges@);
    rs
}

fn names_of(nodes: &[Node], refs: &Vec<String>) -> (names: Vec<String>)
    ensures
        views(names@) == referrer_names(nodes@, views(refs@)),
{
    let mut names: Vec<String> = Vec::new();
    let mut i: usize = 0;
    while i < refs.len()
        invariant
            i <= refs@.len(),
            views(names@) == referrer_names(nodes@, views(refs@).take(i as int)),
        decreases refs.len() - i,
    {
        assert(views(refs@).take(i + 1).drop_last() =~= views(refs@).take(i as int));
        assert(views(refs@).take(i + 1).last() == refs@[i as int]@);
        match index_of_id(nodes, &refs[i]) {
            Some(k) => {
                proof {
                    lemma_id_index_of(nodes@, refs@[i as int]@);
                }
                names.push(nodes[k].name.clone());
                assert(views(names@) =~= referrer_names(nodes@, views(refs@).take(i + 1)));
            },
            None => {},
        }
        i += 1;
    }
    assert(views(refs@).take(i as int) =~= views(refs@));
    names
}

/// Aggregates the graph's edges by target into [`FanIn`]s: nodes
/// referenced by at least [`HIGH_FAN_IN_THRESHOLD`] distinct changed
/// symbols. Cycle edges count like any other. Several edges from one
/// referrer count once; distinct referrers sharing a name each count.
/// Sorted by referrer count descending, then path, name and id ascending.
pub fn compute_fan_ins(graph: &SymbolGraph) -> (fan_ins: Vec<FanIn>)
    ensures
        is_sorted(fan_ins@),
        fan_in_ids(fan_ins@).to_multiset() == fan_in_targets(
            graph.nodes@,
            graph.edges@,
            target_ids(graph.edges@),
        ).to_multiset(),
        forall|i: int|
            0 <= i < fan_ins@.len() ==> describes(#[trigger] fan_ins@[i], graph.nodes@, graph.edges@),
{
    let nodes = graph.nodes.as_slice();
    let edges = graph.edges.as_slice();
    let targets = distinct_targets(edges);
    let mut cands: Vec<FanIn> = Vec::new();
    let mut i: usize = 0;
    while i < targets.len()
        invariant
            nodes@ == graph.nodes@,
            edges@ == graph.edges@,
            i <= targets@.len(),
            views(targets@) == target_ids(edges@),
            fan_in_ids(cands@) == fan_in_targets(nodes@, edges@, views(targets@).take(i as int)),
            forall|c: int| 0 <= c < cands@.len() ==> describes(#[trigger] cands@[c], nodes@, edges@),
        decreases targets.len() - i,
    {
        let t = &targets[i];
        assert(views(targets@).take(i + 1).drop_last() =~= views(targets@).take(i as int));
        assert(views(targets@).take(i + 1).last() == t@);
        let refs = referrers_of(edges, t);
        if refs.len() >= HIGH_FAN_IN_THRESHOLD {
            match index_of_id(nodes, t) {
                Some(k) => {
                    proof {
                        lemma_id_index_of(nodes@, t@);
                    }
                    let names = names_of(nodes, &refs);
                    let used_by = stable_sort(names);
                    proof {
                        lemma_sort_seq_sorted(names@);
                        let f = |s: String| s@;
                        lemma_sort_seq_permutation_map(names@, f);
                        assert(sort_seq(names@).map_values(f) =~= views(used_by@));
                        assert(names@.map_values(f) =~= views(names@));
                    }
                    let entry = FanIn {
                        id: nodes[k].id.clone(),
                        path: nodes[k].path.clone(),
                        name: nodes[k].name.clone(),
                        used_by,
                    };
                    assert(entry.id@ == t@);
                    cands.push(entry);
                    assert(fan_in_ids(cands@) =~= fan_in_targets(
                        nodes@,
                        edges@,
                        views(targets@).take(i + 1),
                    ));
                },
                None => {},
            }
        }
        i += 1;
    }
    assert(views(targets@).take(i as int) =~= views(targets@));
    let sorted = stable_sort(cands);
    proof {
        lemma_sort_seq_sorted(cands@);
        let f = |c: FanIn| c.id@;
        lemma_sort_seq_permutation_map(cands@, f);
        assert(sort_seq(cands@).map_values(f) =~= fan_in_ids(sorted@));
        assert(cands@.map_values(f) =~= fan_in_ids(cands@));
        let g = |c: FanIn| c;
        lemma_sort_seq_permutation_map(cands@, g);
        assert forall|j: int| 0 <= j < sorted@.len() implies describes(
            #[trigger] sorted@[j],
            nodes@,
            edges@,
        ) by {
            assert(sorted@.map_values(g).to_multiset().count(sorted@[j]) > 0) by {
                assert(sorted@.map_values(g)[j] == sorted@[j]);
                sorted@.map_values(g).to_multiset_ensures();
            }
            cands@.map_values(g).to_multiset_ensures();
            assert(cands@.map_values(g).contains(sorted@[j]));
            let c = choose|c: int| 0 <= c < cands@.len() && cands@.map_values(g)[c] == sorted@[j];
            assert(describes(cands@[c], nodes@, edges@));
        }
    }
    sorted
}

proof fn lemma_id_index_of(nodes: Seq<Node>, t: Seq<char>)
    requires
        id_index(nodes, t) is Some,
    ensures
        0 <= id_index(nodes, t).unwrap() < nodes.len(),
        nodes[id_index(nodes, t).unwrap()].id@ == t,
{
    super::lemma_id_index(nodes, t);
}

// ---------------------------------------------------------------------
// Laws.
// ---------------------------------------------------------------------

proof fn lemma_target_ids_distinct(edges: Seq<Edge>)
    ensures
        forall|i: int, j: int|
            0 <= i < j < target_ids(edges).len() ==> target_ids(edges)[i] != target_ids(edges)[j],
    decreases edges.len(),
{
    if edges.len() > 0 {
        lemma_target_ids_distinct(edges.drop_last());
        let prev = target_ids(edges.drop_last());
        let cur = target_ids(edges);
        let t = edges.last().to@;
        if !prev.contains(t) {
            assert forall|i: int, j: int| 0 <= i < j < cur.len() implies cur[i] != cur[j] by {
                if j == prev.len() {
                    assert(cur[i] == prev[i]);
                    assert(cur[j] == t);
                } else {
                    assert(cur[i] == prev[i] && cur[j] == prev[j]);
                }
            }
        }
    }
}

proof fn lemma_fan_in_targets(nodes: Seq<Node>, edges: Seq<Edge>, ts: Seq<Seq<char>>)
    ensures
        forall|i: int|
            0 <= i < fan_in_targets(nodes, edges, ts).len() ==> {
                let t = #[trigger] fan_in_targets(nodes, edges, ts)[i];
                &&& referrer_ids(edges, t).len() >= HIGH_FAN_IN_THRESHOLD
                &&& id_index(nodes, t) is Some
                &&& ts.contains(t)
            },
        (forall|i: int, j: int| 0 <= i < j < ts.len() ==> ts[i] != ts[j]) ==> forall|i: int, j: int|
            0 <= i < j < fan_in_targets(nodes, edges, ts).len() ==> fan_in_targets(nodes, edges, ts)[i]
                != fan_in_targets(nodes, edges, ts)[j],
    decreases ts.len(),
{
    if ts.len() > 0 {
        let prev = fan_in_targets(nodes, edges, ts.drop_last());
        lemma_fan_in_targets(nodes, edges, ts.drop_last());
        let cur = fan_in_targets(nodes, edges, ts);
        assert forall|i: int| 0 <= i < cur.len() implies ts.contains(#[trigger] cur[i]) by {
            if i < prev.len() {
                assert(cur[i] == prev[i]);
                let k = choose|k: int| 0 <= k < ts.drop_last().len() && ts.drop_last()[k] == prev[i];
                assert(ts[k] == prev[i]);
            } else {
                assert(ts[ts.len() - 1] == cur[i]);
            }
        }
        if forall|i: int, j: int| 0 <= i < j < ts.len() ==> ts[i] != ts[j] {
            assert forall|i: int, j: int| 0 <= i < j < cur.len() implies cur[i] != cur[j] by {
                if j == prev.len() {
                    assert(cur[i] == prev[i]);
                    let k = choose|k: int| 0 <= k < ts.drop_last().len() && ts.drop_last()[k] == prev[i];
                    assert(ts[k] == ts.drop_last()[k]);
                } else {
                    assert(cur[i] == prev[i] && cur[j] == prev[j]);
                }
            }
        }
    }
}

/// Every fan-in names a node of the graph with at least
/// [`HIGH_FAN_IN_THRESHOLD`] distinct referrers, and no node is reported
/// twice.
pub proof fn law_fan_ins_qualify(nodes: Seq<Node>, edges: Seq<Edge>)
    ensures
        forall|i: int|
            0 <= i < fan_in_targets(nodes, edges, target_ids(edges)).len() ==> {
                let t = #[trigger] fan_in_targets(nodes, edges, target_ids(edges))[i];
                &&& referrer_ids(edges, t).len() >= HIGH_FAN_IN_THRESHOLD
                &&& id_index(nodes, t) is Some
            },
        forall|i: int, j: int|
            0 <= i < j < fan_in_targets(nodes, edges, target_ids(edges)).len() ==> fan_in_targets(
                nodes,
                edges,
                target_ids(edges),
            )[i] != fan_in_targets(nodes, edges, target_ids(edges))[j],
{
    lemma_target_ids_distinct(edges);
    lemma_fan_in_targets(nodes, edges, target_ids(edges));
}

} // verus!
