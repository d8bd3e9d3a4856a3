//! Directed graph over changed symbols, for entry-point tree rendering.
//!
//! [`build_graph`] takes every changed symbol across a diff and builds a
//! [`SymbolGraph`]: nodes are changed symbols, edges are name-matches from
//! one symbol's `referenced_names` to another changed symbol's name. Entry
//! points ("roots") are the first-in-source-order members of the strongly
//! connected components that no other component points into, so every node
//! is reachable from some root even when every node lies on a cycle
//! ([`roots::law_every_node_reachable_from_a_root`]).
use vstd::prelude::*;

pub mod reach;
pub mod cycles;
pub mod roots;
pub mod assemble;
pub mod pivot;
pub mod fan_in;

pub use assemble::{build_graph, stamp_ids};
pub use fan_in::{compute_fan_ins, FanIn, HIGH_FAN_IN_THRESHOLD};
pub use pivot::{path_under_prefix, pivot_graph, pivot_roots};

verus! {

/// One changed symbol, as a graph node. `id` is `{path}::{name}`, with
/// `@{start_line}` appended when the `(path, name)` pair is not unique.
#[derive(Debug, Clone, PartialEq, Eq)]
pub struct Node {
    pub id: String,
    pub path: String,
    pub name: String,
}

/// A directed edge between two nodes, by id. `is_cycle` marks a back edge
/// found by the depth-first walk from the roots.
#[derive(Debug, Clone, PartialEq, Eq)]
pub struct Edge {
    pub from: String,
    pub to: String,
    pub is_cycle: bool,
}

/// A directed graph over a diff's changed symbols, plus its entry points.
#[derive(Debug, Clone, PartialEq, Eq)]
pub struct SymbolGraph {
    pub nodes: Vec<Node>,
    pub edges: Vec<Edge>,
    pub roots: Vec<String>,
}

/// The position of the last node with id `id`: the node an edge naming
/// that id is attached to.
pub open spec fn id_index(nodes: Seq<Node>, id: Seq<char>) -> Option<int>
    decreases nodes.len(),
{
    if nodes.len() == 0 {
        None
    } else if nodes.last().id@ == id {
        Some(nodes.len() - 1)
    } else {
        id_index(nodes.drop_last(), id)
    }
}

pub proof fn lemma_id_index(nodes: Seq<Node>, id: Seq<char>)
    ensures
        match id_index(nodes, id) {
            Some(k) => 0 <= k < nodes.len() && nodes[k].id@ == id && forall|j: int|
                k < j < nodes.len() ==> nodes[j].id@ != id,
            None => forall|j: int| 0 <= j < nodes.len() ==> nodes[j].id@ != id,
        },
    decreases nodes.len(),
{
    if nodes.len() > 0 {
        lemma_id_index(nodes.drop_last(), id);
        if nodes.last().id@ != id {
            match id_index(nodes.drop_last(), id) {
                Some(k) => {
                    assert forall|j: int| k < j < nodes.len() implies nodes[j].id@ != id by {
                        if j < nodes.len() - 1 {
                            assert(nodes.drop_last()[j] == nodes[j]);
                        }
                    }
                },
                None => {
                    assert forall|j: int| 0 <= j < nodes.len() implies nodes[j].id@ != id by {
                        if j < nodes.len() - 1 {
                            assert(nodes.drop_last()[j] == nodes[j]);
                        }
                    }
                },
            }
        }
    }
}

/// Finds the position [`id_index`] names.
pub fn index_of_id(nodes: &[Node], id: &String) -> (r: Option<usize>)
    ensures
        match r {
            Some(k) => id_index(nodes@, id@) == Some(k as int),
            None => id_index(nodes@, id@) is None,
        },
{
    let mut k = nodes.len();
    assert(nodes@.take(k as int) =~= nodes@);
    while k > 0
        invariant
            k <= nodes@.len(),
            id_index(nodes@, id@) == id_index(nodes@.take(k as int), id@),
        decreases k,
    {
        assert(nodes@.take(k as int).drop_last() =~= nodes@.take(k - 1));
        assert(nodes@.take(k as int).last() == nodes@[k - 1]);
        if nodes[k - 1].id == *id {
            return Some(k - 1);
        }
        k -= 1;
    }
    None
}

/// The node positions an edge connects, when both of its ids name a node.
pub open spec fn edge_ends(nodes: Seq<Node>, e: Edge) -> Option<(int, int)> {
    match (id_index(nodes, e.from@), id_index(nodes, e.to@)) {
        (Some(a), Some(b)) => Some((a, b)),
        _ => None,
    }
}

} // verus!
