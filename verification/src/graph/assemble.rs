//! Building the symbol graph of a diff, and reading it from another path.
use vstd::prelude::*;

use super::cycles::{mark_cycle_edges, spec_cycle_edges};
use super::roots::{find_roots, spec_find_roots};
use super::{Edge, Node, SymbolGraph};
use crate::extract::ExtractedSymbol;
use crate::report::FileReport;
use crate::text::{chars_to_string, decimal, push_decimal, push_str_chars};

verus! {

// ---------------------------------------------------------------------
// Symbols in source order.
// ---------------------------------------------------------------------

/// The `(path, name, start_line)` of every symbol of a file, in order.
pub open spec fn file_keys(f: FileReport) -> Seq<(String, String, usize)> {
    f.symbols@.map_values(|s: ExtractedSymbol| (f.path, s.name, s.range.start))
}

/// The `(path, name, start_line)` of every symbol, files in order, each
/// file's symbols in order.
pub open spec fn flat_keys(files: Seq<FileReport>) -> Seq<(String, String, usize)>
    decreases files.len(),
{
    if files.len() == 0 {
        seq![]
    } else {
        flat_keys(files.drop_last()) + file_keys(files.last())
    }
}

/// Every symbol's referenced names, in the same order as [`flat_keys`].
pub open spec fn flat_refs(files: Seq<FileReport>) -> Seq<Seq<String>>
    decreases files.len(),
{
    if files.len() == 0 {
        seq![]
    } else {
        flat_refs(files.drop_last()) + files.last().symbols@.map_values(
            |s: ExtractedSymbol| s.referenced_names@,
        )
    }
}

/// How many symbols come before file `f`.
pub open spec fn symbols_before(files: Seq<FileReport>, f: int) -> int
    decreases f,
{
    if f <= 0 {
        0
    } else {
        symbols_before(files, f - 1) + files[f - 1].symbols@.len()
    }
}

proof fn lemma_flat_lengths(files: Seq<FileReport>, f: int)
    requires
        0 <= f <= files.len(),
    ensures
        flat_keys(files.take(f)).len() == symbols_before(files, f),
        flat_refs(files.take(f)).len() == symbols_before(files, f),
        symbols_before(files, f) >= 0,
    decreases f,
{
    if f > 0 {
        assert(files.take(f).drop_last() =~= files.take(f - 1));
        lemma_flat_lengths(files, f - 1);
    }
}

/// How many keys among `keys` have this path and name.
pub open spec fn pair_count(keys: Seq<(String, String, usize)>, path: Seq<char>, name: Seq<char>) -> nat
    decreases keys.len(),
{
    if keys.len() == 0 {
        0
    } else {
        pair_count(keys.drop_last(), path, name) + if keys.last().0@ == path && keys.last().1@
            == name {
            1nat
        } else {
            0nat
        }
    }
}

/// The node id of the `k`-th symbol: `{path}::{name}`, with
/// `@{start_line}` appended when another symbol shares its path and name.
pub open spec fn spec_node_id(keys: Seq<(String, String, usize)>, k: int) -> Seq<char> {
    let (path, name, start) = keys[k];
    let base = path@ + seq![':', ':'] + name@;
    if pair_count(keys, path@, name@) > 1 {
        base + seq!['@'] + decimal(start as nat)
    } else {
        base
    }
}

/// `nodes` are the graph nodes of the symbols `keys` describe.
pub open spec fn nodes_of(keys: Seq<(String, String, usize)>, nodes: Seq<Node>) -> bool {
    &&& nodes.len() == keys.len()
    &&& forall|k: int|
        0 <= k < keys.len() ==> (#[trigger] nodes[k]).id@ == spec_node_id(keys, k) && nodes[k].path
            == keys[k].0 && nodes[k].name == keys[k].1
}

/// The `(path, name, start_line)` of every symbol in source order.
pub fn flat_symbol_keys(files: &[FileReport]) -> (keys: Vec<(String, String, usize)>)
    ensures
        keys@ == flat_keys(files@),
{
    let mut keys: Vec<(String, String, usize)> = Vec::new();
    let mut f: usize = 0;
    while f < files.len()
        invariant
            f <= files@.len(),
            keys@ == flat_keys(files@.take(f as int)),
        decreases files.len() - f,
    {
        let file = &files[f];
        let ghost base = keys@;
        let mut s: usize = 0;
        while s < file.symbols.len()
            invariant
                s <= file.symbols@.len(),
                keys@ == base + file_keys(*file).take(s as int),
            decreases file.symbols.len() - s,
        {
            let sym = &file.symbols[s];
            keys.push((file.path.clone(), sym.name.clone(), sym.range.start));
            s += 1;
            assert(keys@ =~= base + file_keys(*file).take(s as int));
        }
        assert(file_keys(*file).take(s as int) =~= file_keys(*file));
        assert(files@.take(f + 1).drop_last() =~= files@.take(f as int));
        assert(files@.take(f + 1).last() == *file);
        f += 1;
    }
    assert(files@.take(f as int) =~= files@);
    keys
}

fn count_pairs(keys: &Vec<(String, String, usize)>, path: &String, name: &String) -> (count: usize)
    ensures
        count == pair_count(keys@, path@, name@),
{
    let mut count: usize = 0;
    let mut i: usize = 0;
    while i < keys.len()
        invariant
            i <= keys@.len(),
            count == pair_count(keys@.take(i as int), path@, name@),
            count <= i,
        decreases keys.len() - i,
    {
        assert(keys@.take(i + 1).drop_last() =~= keys@.take(i as int));
        assert(keys@.take(i + 1).last() == keys@[i as int]);
        if keys[i].0 == *path && keys[i].1 == *name {
            count += 1;
        }
        i += 1;
    }
    assert(keys@.take(i as int) =~= keys@);
    count
}

fn node_id(path: &String, name: &String, start: Option<usize>) -> (id: String)
    ensures
        id@ == match start {
            Some(n) => path@ + seq![':', ':'] + name@ + seq!['@'] + decimal(n as nat),
            None => path@ + seq![':', ':'] + name@,
        },
{
    let mut chars: Vec<char> = Vec::new();
    push_str_chars(path.as_str(), &mut chars);
    chars.push(':');
    chars.push(':');
    push_str_chars(name.as_str(), &mut chars);
    if let Some(n) = start {
        chars.push('@');
        push_decimal(n, &mut chars);
    }
    let id = chars_to_string(chars.as_slice());
    assert(id@ =~= match start {
        Some(n) => path@ + seq![':', ':'] + name@ + seq!['@'] + decimal(n as nat),
        None => path@ + seq![':', ':'] + name@,
    });
    id
}

/// Assigns a stable node id to every symbol in source order. A `(path,
/// name)` pair is disambiguated with `@{start_line}` only when it is not
/// unique within `files`.
fn collect_nodes(files: &[FileReport]) -> (nodes: Vec<Node>)
    ensures
        nodes_of(flat_keys(files@), nodes@),
{
    let keys = flat_symbol_keys(files);
    let mut nodes: Vec<Node> = Vec::new();
    let mut k: usize = 0;
    while k < keys.len()
        invariant
            k <= keys@.len(),
            keys@ == flat_keys(files@),
            nodes@.len() == k,
            forall|q: int|
                0 <= q < k ==> (#[trigger] nodes@[q]).id@ == spec_node_id(keys@, q) && nodes@[q].path
                    == keys@[q].0 && nodes@[q].name == keys@[q].1,
        decreases keys.len() - k,
    {
        let key = &keys[k];
        let count = count_pairs(&keys, &key.0, &key.1);
        let id = if count > 1 {
            node_id(&key.0, &key.1, Some(key.2))
        } else {
            node_id(&key.0, &key.1, None)
        };
        nodes.push(Node { id, path: key.0.clone(), name: key.1.clone() });
        k += 1;
    }
    nodes
}

// ---------------------------------------------------------------------
// Edges.
// ---------------------------------------------------------------------

/// Edges from `from` to every node among the first `j` whose name is
/// `name`, other than nodes sharing `from`'s id.
pub open spec fn edges_to(nodes: Seq<Node>, from: Node, name: Seq<char>, j: int) -> Seq<Edge>
    decreases j,
{
    if j <= 0 {
        seq![]
    } else {
        let prev = edges_to(nodes, from, name, j - 1);
        let t = nodes[j - 1];
        if t.name@ == name && t.id@ != from.id@ {
            prev.push(Edge { from: from.id, to: t.id, is_cycle: false })
        } else {
            prev
        }
    }
}

/// Edges from `from` for each referenced name in turn.
pub open spec fn edges_for_names(nodes: Seq<Node>, from: Node, names: Seq<String>) -> Seq<Edge>
    decreases names.len(),
{
    if names.len() == 0 {
        seq![]
    } else {
        edges_for_names(nodes, from, names.drop_last()) + edges_to(
            nodes,
            from,
            names.last()@,
            nodes.len() as int,
        )
    }
}

/// The edges of the first `refs.len()` symbols, each with its referenced
/// names `refs[i]`, in order.
pub open spec fn all_edges(nodes: Seq<Node>, refs: Seq<Seq<String>>) -> Seq<Edge>
    decreases refs.len(),
{
    if refs.len() == 0 {
        seq![]
    } else {
        all_edges(nodes, refs.drop_last()) + edges_for_names(
            nodes,
            nodes[refs.len() - 1],
            refs.last(),
        )
    }
}

/// Builds edges from each symbol's referenced names to every symbol whose
/// name matches, across the whole diff. Edges between nodes that share an
/// id (a symbol referencing its own name) are left out; a name matching
/// several symbols gets an edge to each.
fn collect_edges(files: &[FileReport], nodes: &[Node]) -> (edges: Vec<Edge>)
    requires
        nodes@.len() == flat_refs(files@).len(),
    ensures
        edges@ == all_edges(nodes@, flat_refs(files@)),
{
    let mut edges: Vec<Edge> = Vec::new();
    let mut node_index: usize = 0;
    let mut f: usize = 0;
    proof {
        lemma_flat_lengths(files@, files@.len() as int);
        assert(files@.take(files@.len() as int) =~= files@);
    }
    while f < files.len()
        invariant
            f <= files@.len(),
            nodes@.len() == flat_refs(files@).len(),
            node_index == symbols_before(files@, f as int),
            flat_refs(files@).len() == symbols_before(files@, files@.len() as int),
            edges@ == all_edges(nodes@, flat_refs(files@.take(f as int))),
        decreases files.len() - f,
    {
        let file = &files[f];
        let ghost done = flat_refs(files@.take(f as int));
        let ghost frefs = file.symbols@.map_values(|s: ExtractedSymbol| s.referenced_names@);
        proof {
            lemma_flat_lengths(files@, f as int);
            lemma_symbols_before_mono(files@, f + 1, files@.len() as int);
        }
        let mut s: usize = 0;
        while s < file.symbols.len()
            invariant
                s <= file.symbols@.len(),
                f < files@.len(),
                *file == files@[f as int],
                nodes@.len() == flat_refs(files@).len(),
                done.len() == symbols_before(files@, f as int),
                node_index == symbols_before(files@, f as int) + s,
                symbols_before(files@, f + 1) <= nodes@.len(),
                frefs == file.symbols@.map_values(|s: ExtractedSymbol| s.referenced_names@),
                edges@ == all_edges(nodes@, done + frefs.take(s as int)),
            decreases file.symbols.len() - s,
        {
            let names = &file.symbols[s].referenced_names;
            let from = &nodes[node_index];
            let ghost before = edges@;
            let mut t: usize = 0;
            while t < names.len()
                invariant
                    t <= names@.len(),
                    node_index < nodes@.len(),
                    *from == nodes@[node_index as int],
                    edges@ == before + edges_for_names(nodes@, *from, names@.take(t as int)),
                decreases names.len() - t,
            {
                let name = &names[t];
                let ghost mid = edges@;
                let mut j: usize = 0;
                while j < nodes.len()
                    invariant
                        j <= nodes@.len(),
                        *from == nodes@[node_index as int],
                        edges@ == mid + edges_to(nodes@, *from, name@, j as int),
                    decreases nodes.len() - j,
                {
                    let target = &nodes[j];
                    if target.name == *name && !(target.id == from.id) {
                        edges.push(
                            Edge { from: from.id.clone(), to: target.id.clone(), is_cycle: false },
                        );
                    }
                    j += 1;
                    assert(edges@ =~= mid + edges_to(nodes@, *from, name@, j as int));
                }
                assert(names@.take(t + 1).drop_last() =~= names@.take(t as int));
                assert(names@.take(t + 1).last() == *name);
                t += 1;
                assert(edges@ =~= before + edges_for_names(nodes@, *from, names@.take(t as int)));
            }
            assert(names@.take(t as int) =~= names@);
            let ghost pre = done + frefs.take(s as int);
            assert((done + frefs.take(s + 1)).drop_last() =~= pre);
            assert((done + frefs.take(s + 1)).last() == names@);
            assert((done + frefs.take(s + 1)).len() - 1 == node_index);
            assert(edges@ =~= all_edges(nodes@, done + frefs.take(s + 1)));
            s += 1;
            node_index += 1;
        }
        assert(frefs.take(s as int) =~= frefs);
        assert(files@.take(f + 1).drop_last() =~= files@.take(f as int));
        assert(files@.take(f + 1).last() == *file);
        f += 1;
    }
    assert(files@.take(f as int) =~= files@);
    edges
}

proof fn lemma_symbols_before_mono(files: Seq<FileReport>, a: int, b: int)
    requires
        0 <= a <= b,
    ensures
        symbols_before(files, a) <= symbols_before(files, b),
    decreases b - a,
{
    if a < b {
        lemma_symbols_before_mono(files, a, b - 1);
    }
}

/// `edges` with every edge whose index is in `cycles` marked as a cycle edge.
pub open spec fn with_cycles_marked(edges: Seq<Edge>, cycles: Seq<usize>) -> Seq<Edge> {
    Seq::new(
        edges.len(),
        |k: int| Edge { is_cycle: edges[k].is_cycle || cycles.contains(k as usize), ..edges[k] },
    )
}

/// The graph [`build_graph`] makes of `nodes` and the name-matched
/// `edges`: roots found, then back edges of the walk from them marked.
pub open spec fn finished_graph(nodes: Seq<Node>, edges: Seq<Edge>) -> (Seq<String>, Seq<Edge>) {
    let roots = spec_find_roots(nodes, edges);
    (roots, with_cycles_marked(edges, spec_cycle_edges(nodes, roots, edges)))
}

/// Builds a [`SymbolGraph`] over every symbol in `files`, in source order:
/// one node per symbol, an edge per name match, its roots, and its cycle
/// edges.
pub fn build_graph(files: &[FileReport]) -> (graph: SymbolGraph)
    ensures
        nodes_of(flat_keys(files@), graph.nodes@),
        (graph.roots@, graph.edges@) == finished_graph(
            graph.nodes@,
            all_edges(graph.nodes@, flat_refs(files@)),
        ),
{
    let nodes = collect_nodes(files);
    proof {
        lemma_flat_lengths(files@, files@.len() as int);
        assert(files@.take(files@.len() as int) =~= files@);
    }
    let mut edges = collect_edges(files, nodes.as_slice());
    let ghost edges0 = edges@;
    let roots = find_roots(nodes.as_slice(), edges.as_slice());
    mark_cycle_edges(nodes.as_slice(), roots.as_slice(), &mut edges);
    assert(edges@ =~= with_cycles_marked(edges0, spec_cycle_edges(nodes@, roots@, edges0)));
    SymbolGraph { nodes, edges, roots }
}

// ---------------------------------------------------------------------
// Stamping ids back onto the symbols.
// ---------------------------------------------------------------------

/// `new` is `old` with the id of each of its first `upto` symbols set to
/// the id of the node at its flat position `base + s`, where such a node
/// exists; every other field and symbol is unchanged.
pub open spec fn file_stamped(old: FileReport, new: FileReport, nodes: Seq<Node>, base: int, upto: int) -> bool {
    &&& new.path == old.path
    &&& new.symbols@.len() == old.symbols@.len()
    &&& forall|s: int|
        0 <= s < old.symbols@.len() ==> #[trigger] new.symbols@[s] == (ExtractedSymbol {
            id: if s < upto && base + s < nodes.len() {
                nodes[base + s].id
            } else {
                old.symbols@[s].id
            },
            ..old.symbols@[s]
        })
}

/// Sets each symbol's `id` to the id of the graph node at the same
/// source-order position, so a symbol can be matched with its node without
/// recomputing the id scheme. Symbols past the last node keep their id.
pub fn stamp_ids(files: &mut Vec<FileReport>, graph: &SymbolGraph)
    ensures
        final(files)@.len() == old(files)@.len(),
        forall|f: int|
            0 <= f < old(files)@.len() ==> file_stamped(
                old(files)@[f],
                #[trigger] final(files)@[f],
                graph.nodes@,
                symbols_before(old(files)@, f),
                old(files)@[f].symbols@.len() as int,
            ),
{
    let ghost old_files = files@;
    let ghost nodes = graph.nodes@;
    let mut node_index: usize = 0;
    let mut f: usize = 0;
    while f < files.len()
        invariant
            files@.len() == old_files.len(),
            old_files == old(files)@,
            nodes == graph.nodes@,
            f <= files@.len(),
            node_index == symbols_before(old_files, f as int),
            node_index <= nodes.len(),
            forall|g: int|
                0 <= g < f ==> file_stamped(
                    old_files[g],
                    #[trigger] files@[g],
                    nodes,
                    symbols_before(old_files, g),
                    old_files[g].symbols@.len() as int,
                ),
            forall|g: int| f <= g < files@.len() ==> #[trigger] files@[g] == old_files[g],
        decreases files.len() - f,
    {
        let mut s: usize = 0;
        let count = files[f].symbols.len();
        while s < count
            invariant
                files@.len() == old_files.len(),
                old_files == old(files)@,
                nodes == graph.nodes@,
                f < files@.len(),
                count == old_files[f as int].symbols@.len(),
                s <= count,
                node_index == symbols_before(old_files, f as int) + s,
                node_index <= nodes.len(),
                file_stamped(old_files[f as int], files@[f as int], nodes, node_index - s, s as int),
                forall|g: int|
                    0 <= g < f ==> file_stamped(
                        old_files[g],
                        #[trigger] files@[g],
                        nodes,
                        symbols_before(old_files, g),
                        old_files[g].symbols@.len() as int,
                    ),
                forall|g: int| f < g < files@.len() ==> #[trigger] files@[g] == old_files[g],
            decreases count - s,
        {
            if node_index >= graph.nodes.len() {
                proof {
                    lemma_stamp_rest(old_files, files@, nodes, f as int, s as int);
                }
                return;
            }
            files[f].symbols[s].id = graph.nodes[node_index].id.clone();
            s += 1;
            node_index += 1;
        }
        f += 1;
    }
}

/// Once the flat position has passed the last node, the symbols left keep
/// their ids: what has been stamped so far is already the whole result.
proof fn lemma_stamp_rest(old_files: Seq<FileReport>, files: Seq<FileReport>, nodes: Seq<Node>, f: int, s: int)
    requires
        files.len() == old_files.len(),
        0 <= f < files.len(),
        0 <= s <= old_files[f].symbols@.len(),
        symbols_before(old_files, f) + s >= nodes.len(),
        file_stamped(old_files[f], files[f], nodes, symbols_before(old_files, f), s),
        forall|g: int|
            0 <= g < f ==> file_stamped(
                old_files[g],
                #[trigger] files[g],
                nodes,
                symbols_before(old_files, g),
                old_files[g].symbols@.len() as int,
            ),
        forall|g: int| f < g < files.len() ==> #[trigger] files[g] == old_files[g],
    ensures
        forall|g: int|
            0 <= g < old_files.len() ==> file_stamped(
                old_files[g],
                #[trigger] files[g],
                nodes,
                symbols_before(old_files, g),
                old_files[g].symbols@.len() as int,
            ),
{
    assert forall|g: int| 0 <= g < old_files.len() implies file_stamped(
        old_files[g],
        #[trigger] files[g],
        nodes,
        symbols_before(old_files, g),
        old_files[g].symbols@.len() as int,
    ) by {
        if g == f {
        } else if g > f {
            lemma_symbols_before_mono(old_files, f + 1, g);
            assert(symbols_before(old_files, f + 1) == symbols_before(old_files, f) + old_files[f].symbols@.len());
        }
    }
}

// ---------------------------------------------------------------------
// Laws.
// ---------------------------------------------------------------------

proof fn lemma_edges_to(nodes: Seq<Node>, from: Node, name: Seq<char>, j: int, q: int)
    requires
        0 <= j <= nodes.len(),
        0 <= q < edges_to(nodes, from, name, j).len(),
    ensures
        edges_to(nodes, from, name, j)[q].from == from.id,
        edges_to(nodes, from, name, j)[q].to@ != from.id@,
        exists|t: int|
            0 <= t < j && #[trigger] nodes[t].id == edges_to(nodes, from, name, j)[q].to
                && nodes[t].name@ == name,
    decreases j,
{
    let prev = edges_to(nodes, from, name, j - 1);
    if q < prev.len() {
        lemma_edges_to(nodes, from, name, j - 1, q);
        assert(edges_to(nodes, from, name, j)[q] == prev[q]);
    } else {
        assert(nodes[j - 1].id == edges_to(nodes, from, name, j)[q].to);
    }
}

proof fn lemma_edges_for_names(nodes: Seq<Node>, from: Node, names: Seq<String>, q: int)
    requires
        0 <= q < edges_for_names(nodes, from, names).len(),
    ensures
        edges_for_names(nodes, from, names)[q].from == from.id,
        edges_for_names(nodes, from, names)[q].to@ != from.id@,
        exists|t: int|
            0 <= t < nodes.len() && #[trigger] nodes[t].id == edges_for_names(nodes, from, names)[q].to,
    decreases names.len(),
{
    let prev = edges_for_names(nodes, from, names.drop_last());
    let last = edges_to(nodes, from, names.last()@, nodes.len() as int);
    if q < prev.len() {
        lemma_edges_for_names(nodes, from, names.drop_last(), q);
        assert(edges_for_names(nodes, from, names)[q] == prev[q]);
    } else {
        lemma_edges_to(nodes, from, names.last()@, nodes.len() as int, q - prev.len());
        assert(edges_for_names(nodes, from, names)[q] == last[q - prev.len()]);
    }
}

/// Every edge the graph draws runs between two nodes of the graph, and no
/// edge joins a node to a node with its own id: a symbol referring to its
/// own name gets no self-loop.
pub proof fn law_edges_join_distinct_nodes(nodes: Seq<Node>, refs: Seq<Seq<String>>, q: int)
    requires
        refs.len() <= nodes.len(),
        0 <= q < all_edges(nodes, refs).len(),
    ensures
        all_edges(nodes, refs)[q].from@ != all_edges(nodes, refs)[q].to@,
        !all_edges(nodes, refs)[q].is_cycle,
        exists|a: int| 0 <= a < nodes.len() && #[trigger] nodes[a].id == all_edges(nodes, refs)[q].from,
        exists|b: int| 0 <= b < nodes.len() && #[trigger] nodes[b].id == all_edges(nodes, refs)[q].to,
    decreases refs.len(),
{
    let prev = all_edges(nodes, refs.drop_last());
    let from = nodes[refs.len() - 1];
    let last = edges_for_names(nodes, from, refs.last());
    if q < prev.len() {
        law_edges_join_distinct_nodes(nodes, refs.drop_last(), q);
        assert(all_edges(nodes, refs)[q] == prev[q]);
    } else {
        lemma_edges_for_names(nodes, from, refs.last(), q - prev.len());
        assert(all_edges(nodes, refs)[q] == last[q - prev.len()]);
        lemma_edges_for_names_not_cycle(nodes, from, refs.last(), q - prev.len());
        assert(nodes[refs.len() - 1].id == all_edges(nodes, refs)[q].from);
    }
}

proof fn lemma_edges_for_names_not_cycle(nodes: Seq<Node>, from: Node, names: Seq<String>, q: int)
    requires
        0 <= q < edges_for_names(nodes, from, names).len(),
    ensures
        !edges_for_names(nodes, from, names)[q].is_cycle,
    decreases names.len(),
{
    let prev = edges_for_names(nodes, from, names.drop_last());
    if q < prev.len() {
        lemma_edges_for_names_not_cycle(nodes, from, names.drop_last(), q);
        assert(edges_for_names(nodes, from, names)[q] == prev[q]);
    } else {
        lemma_edges_to_not_cycle(nodes, from, names.last()@, nodes.len() as int, q - prev.len());
    }
}

proof fn lemma_edges_to_not_cycle(nodes: Seq<Node>, from: Node, name: Seq<char>, j: int, q: int)
    requires
        0 <= q < edges_to(nodes, from, name, j).len(),
    ensures
        !edges_to(nodes, from, name, j)[q].is_cycle,
    decreases j,
{
    let prev = edges_to(nodes, from, name, j - 1);
    if q < prev.len() {
        lemma_edges_to_not_cycle(nodes, from, name, j - 1, q);
        assert(edges_to(nodes, from, name, j)[q] == prev[q]);
    }
}

proof fn lemma_flat_keys_len(files: Seq<FileReport>)
    ensures
        flat_keys(files).len() == symbols_before(files, files.len() as int),
{
    lemma_flat_lengths(files, files.len() as int);
    assert(files.take(files.len() as int) =~= files);
}

/// After [`build_graph`] and [`stamp_ids`], every symbol carries the id of
/// its own node: the `{path}::{name}` id, with `@{start_line}` when its
/// path and name are shared, counted over the symbols in source order.
pub proof fn law_stamped_ids_are_node_ids(
    files: Seq<FileReport>,
    nodes: Seq<Node>,
    stamped: Seq<FileReport>,
    f: int,
    s: int,
)
    requires
        nodes_of(flat_keys(files), nodes),
        stamped.len() == files.len(),
        forall|g: int|
            0 <= g < files.len() ==> file_stamped(
                files[g],
                #[trigger] stamped[g],
                nodes,
                symbols_before(files, g),
                files[g].symbols@.len() as int,
            ),
        0 <= f < files.len(),
        0 <= s < files[f].symbols@.len(),
    ensures
        stamped[f].symbols@[s].id@ == spec_node_id(flat_keys(files), symbols_before(files, f) + s),
        stamped[f].symbols@[s].name == files[f].symbols@[s].name,
{
    lemma_flat_keys_len(files);
    lemma_symbols_before_mono(files, f + 1, files.len() as int);
    lemma_flat_lengths(files, f);
    assert(symbols_before(files, f + 1) == symbols_before(files, f) + files[f].symbols@.len());
    let k = symbols_before(files, f) + s;
    assert(0 <= k < nodes.len());
    assert(nodes[k].id@ == spec_node_id(flat_keys(files), k));
    assert(file_stamped(files[f], stamped[f], nodes, symbols_before(files, f), files[f].symbols@.len() as int));
}

} // verus!
