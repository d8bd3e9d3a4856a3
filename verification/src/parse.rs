//! Parsing a source file with its language's tree-sitter grammar: the
//! parse is read node by node into a [`SyntaxTree`], and the language's
//! definition and reference queries give the [`Definition`]s that
//! [`crate::extract`] reports symbols for.
use vstd::prelude::*;

use std::collections::HashMap;

use tree_sitter::{Query, QueryCursor, StreamingIterator};

use crate::diff::LineRange;
use crate::extract::symbols::{all_positions, changed_positions, defs_in, positions_where, reports};
use crate::extract::hcl::{extract_all_hcl_symbols, extract_changed_hcl_symbols, hcl_reports};
use crate::extract::{extract_all_symbols, extract_changed_symbols, Definition, ExtractedSymbol};
use crate::deps::{automaton_builds, files_index, indexed, some_name_occurs, should_index_file, spec_should_index, string_views, NameMatcher, ResolvedSymbol, TagsResolver};
use crate::language::{language_for_path, spec_definition_query, spec_language_for_path, spec_reference_query, Language};
use crate::text::{has_prefix, str_to_chars};
use crate::tree::{SyntaxNode, SyntaxTree};

verus! {

#[verifier::external_type_specification]
#[verifier::external_body]
pub struct ExTree(tree_sitter::Tree);

/// `tree_sitter::Parser::parse` of `source` with the Rust grammar
/// (`tree_sitter_rust::LANGUAGE`), kept with the source and the language
/// it was parsed as. Claimed: the parse is of `source` in Rust; what its
/// nodes hold is named by [`parsed_node`]. `set_language` fails only
/// for a grammar of another ABI version and `parse` returns no tree only
/// when no language is set or parsing is cancelled; neither happens here.
#[verifier::external_body]
fn parse_rust(source: &str) -> (r: ParsedSource)
    ensures
        r@ == (source@, Language::Rust),
{
    let mut parser = tree_sitter::Parser::new();
    parser.set_language(&tree_sitter_rust::LANGUAGE.into()).unwrap();
    let tree = parser.parse(source, None).unwrap();
    ParsedSource { tree, source: source.to_string(), lang: Language::Rust }
}

/// As [`parse_rust`], with the Go grammar (`tree_sitter_go::LANGUAGE`).
#[verifier::external_body]
fn parse_go(source: &str) -> (r: ParsedSource)
    ensures
        r@ == (source@, Language::Go),
{
    let mut parser = tree_sitter::Parser::new();
    parser.set_language(&tree_sitter_go::LANGUAGE.into()).unwrap();
    let tree = parser.parse(source, None).unwrap();
    ParsedSource { tree, source: source.to_string(), lang: Language::Go }
}

/// As [`parse_rust`], with the Python grammar
/// (`tree_sitter_python::LANGUAGE`).
#[verifier::external_body]
fn parse_python(source: &str) -> (r: ParsedSource)
    ensures
        r@ == (source@, Language::Python),
{
    let mut parser = tree_sitter::Parser::new();
    parser.set_language(&tree_sitter_python::LANGUAGE.into()).unwrap();
    let tree = parser.parse(source, None).unwrap();
    ParsedSource { tree, source: source.to_string(), lang: Language::Python }
}

/// As [`parse_rust`], with the TypeScript grammar
/// (`tree_sitter_typescript::LANGUAGE_TYPESCRIPT`).
#[verifier::external_body]
fn parse_typescript(source: &str) -> (r: ParsedSource)
    ensures
        r@ == (source@, Language::TypeScript),
{
    let mut parser = tree_sitter::Parser::new();
    parser.set_language(&tree_sitter_typescript::LANGUAGE_TYPESCRIPT.into()).unwrap();
    let tree = parser.parse(source, None).unwrap();
    ParsedSource { tree, source: source.to_string(), lang: Language::TypeScript }
}

/// As [`parse_rust`], with the TSX grammar
/// (`tree_sitter_typescript::LANGUAGE_TSX`).
#[verifier::external_body]
fn parse_tsx(source: &str) -> (r: ParsedSource)
    ensures
        r@ == (source@, Language::Tsx),
{
    let mut parser = tree_sitter::Parser::new();
    parser.set_language(&tree_sitter_typescript::LANGUAGE_TSX.into()).unwrap();
    let tree = parser.parse(source, None).unwrap();
    ParsedSource { tree, source: source.to_string(), lang: Language::Tsx }
}

/// As [`parse_rust`], with the HCL grammar (`tree_sitter_hcl::LANGUAGE`).
#[verifier::external_body]
fn parse_hcl(source: &str) -> (r: ParsedSource)
    ensures
        r@ == (source@, Language::Hcl),
{
    let mut parser = tree_sitter::Parser::new();
    parser.set_language(&tree_sitter_hcl::LANGUAGE.into()).unwrap();
    let tree = parser.parse(source, None).unwrap();
    ParsedSource { tree, source: source.to_string(), lang: Language::Hcl }
}

/// A source parsed with its language's grammar. Only the parse wrappers
/// build one, each with its own grammar and language, so its tree is
/// always the parse of its source in its language.
pub struct ParsedSource {
    tree: tree_sitter::Tree,
    source: String,
    lang: Language,
}

impl View for ParsedSource {
    type V = (Seq<char>, Language);

    closed spec fn view(&self) -> (Seq<char>, Language) {
        (self.source@, self.lang)
    }
}

/// Parses `source` with the grammar of `lang`.
pub fn parse_source(source: &str, lang: Language) -> (r: ParsedSource)
    ensures
        r@ == (source@, lang),
{
    match lang {
        Language::Rust => parse_rust(source),
        Language::Go => parse_go(source),
        Language::Python => parse_python(source),
        Language::TypeScript => parse_typescript(source),
        Language::Tsx => parse_tsx(source),
        Language::Hcl => parse_hcl(source),
    }
}

/// A node of a parse as tree-sitter reports it: its kind, the field of
/// its parent it fills, whether it is named, its span in bytes and rows,
/// and the pre-order position of its parent (the root's own, 0).
#[derive(Debug, Clone, PartialEq, Eq)]
pub struct RawNode {
    pub kind: String,
    pub field: Option<String>,
    pub named: bool,
    pub start_byte: usize,
    pub end_byte: usize,
    pub start_row: usize,
    pub end_row: usize,
    pub parent_index: usize,
}

/// The number of nodes of the parse of `source` in `lang`.
pub uninterp spec fn parsed_node_count(source: Seq<char>, lang: Language) -> nat;

/// The `k`-th node, in pre-order, of the parse of `source` in `lang`.
pub uninterp spec fn parsed_node(source: Seq<char>, lang: Language, k: int) -> RawNode;

/// The captures, as (capture name, pre-order position of the captured
/// node) in match order, of `query` run over the `k`-th node of the parse
/// of `source` in `lang`.
pub uninterp spec fn parsed_captures(source: Seq<char>, lang: Language, query: Seq<char>, k: int) -> Seq<(Seq<char>, usize)>;

/// `Node::descendant_count` of the root: the number of nodes of the
/// parse, the root included. Claimed: it is [`parsed_node_count`] of the
/// parsed source.
#[verifier::external_body]
fn node_count(p: &ParsedSource) -> (r: usize)
    ensures
        r == parsed_node_count(p@.0, p@.1),
{
    p.tree.root_node().descendant_count()
}

/// The node a `TreeCursor` reaches by `goto_descendant(k)` from the root,
/// read as plain values; `descendant_index` after `goto_parent` gives the
/// parent's pre-order position. Claimed: it is [`parsed_node`] of the
/// parsed source at `k`.
#[verifier::external_body]
fn node_at(p: &ParsedSource, k: usize) -> (r: RawNode)
    requires
        k < parsed_node_count(p@.0, p@.1),
    ensures
        r == parsed_node(p@.0, p@.1, k as int),
{
    let mut c = p.tree.walk();
    c.goto_descendant(k);
    let (n, field) = (c.node(), c.field_name().map(String::from));
    c.goto_parent();
    RawNode {
        kind: n.kind().to_string(), field, named: n.is_named(),
        start_byte: n.start_byte(), end_byte: n.end_byte(),
        start_row: n.start_position().row, end_row: n.end_position().row,
        parent_index: c.descendant_index(),
    }
}

/// `QueryCursor::matches` of `query` (compiled by `Query::new` for the
/// tree's grammar) over the `k`-th node, every capture read as its
/// capture name and its node's pre-order position, found through the
/// nodes' ids. Claimed: it is [`parsed_captures`] of the parsed source.
/// `Query::new` fails only on a query that does not fit the grammar; the
/// language's own two queries fit theirs.
#[verifier::external_body]
fn captures(p: &ParsedSource, query: &str, k: usize) -> (r: Vec<(String, usize)>)
    requires
        query@ == spec_definition_query(p@.1)@ || query@ == spec_reference_query(p@.1)@,
        k < parsed_node_count(p@.0, p@.1),
    ensures
        r@.map_values(|x: (String, usize)| (x.0@, x.1)) == parsed_captures(p@.0, p@.1, query@, k as int),
{
    let q = Query::new(&p.tree.language(), query).unwrap();
    let mut c = p.tree.walk();
    let mut position = HashMap::new();
    for i in 0..c.node().descendant_count() { c.goto_descendant(i); position.insert(c.node().id(), i); }
    c.goto_descendant(k);
    let mut cursor = QueryCursor::new();
    let mut out = Vec::new();
    let mut found = cursor.matches(&q, c.node(), p.source.as_bytes());
    while let Some(m) = found.next() {
        for capture in m.captures {
            out.push((q.capture_names()[capture.index as usize].to_string(), position[&capture.node.id()]));
        }
    }
    out
}

// ---------------------------------------------------------------------
// Byte positions to character positions.
// ---------------------------------------------------------------------

/// The number of bytes `c` takes in UTF-8.
pub open spec fn utf8_len(c: char) -> nat {
    if (c as u32) < 0x80 {
        1
    } else if (c as u32) < 0x800 {
        2
    } else if (c as u32) < 0x10000 {
        3
    } else {
        4
    }
}

fn utf8_width(c: char) -> (r: usize)
    ensures
        r == utf8_len(c),
{
    if (c as u32) < 0x80 {
        1
    } else if (c as u32) < 0x800 {
        2
    } else if (c as u32) < 0x10000 {
        3
    } else {
        4
    }
}

/// For every byte position of `s` in UTF-8, its end included, the number
/// of characters that start before it.
pub open spec fn char_table(s: Seq<char>) -> Seq<usize>
    decreases s.len(),
{
    if s.len() == 0 {
        seq![0usize]
    } else {
        char_table(s.drop_last()) + Seq::new(utf8_len(s.last()), |j: int| s.len() as usize)
    }
}

/// The character position of byte position `b` of `s`: the number of
/// characters that start before it (all of them past the end).
pub open spec fn char_at(s: Seq<char>, b: int) -> int {
    if 0 <= b < char_table(s).len() {
        char_table(s)[b] as int
    } else {
        s.len() as int
    }
}

fn build_char_table(chars: &Vec<char>) -> (table: Vec<usize>)
    ensures
        table@ == char_table(chars@),
{
    let mut table: Vec<usize> = Vec::new();
    table.push(0);
    let mut i: usize = 0;
    assert(chars@.take(0) =~= Seq::<char>::empty());
    assert(table@ =~= char_table(chars@.take(0)));
    while i < chars.len()
        invariant
            i <= chars@.len(),
            table@ == char_table(chars@.take(i as int)),
        decreases chars.len() - i,
    {
        let width = utf8_width(chars[i]);
        let next = i + 1;
        let ghost base = table@;
        let mut m: usize = 0;
        while m < width
            invariant
                next == i + 1,
                m <= width,
                table@ == base + Seq::new(m as nat, |j: int| next),
            decreases width - m,
        {
            table.push(next);
            m += 1;
            assert(table@ =~= base + Seq::new(m as nat, |j: int| next));
        }
        assert(chars@.take(i + 1).drop_last() =~= chars@.take(i as int));
        assert(chars@.take(i + 1).last() == chars@[i as int]);
        i += 1;
        assert(table@ =~= char_table(chars@.take(i as int)));
    }
    assert(chars@.take(i as int) =~= chars@);
    table
}

fn char_position(table: &Vec<usize>, count: usize, b: usize, Ghost(s): Ghost<Seq<char>>) -> (r: usize)
    requires
        table@ == char_table(s),
        count == s.len(),
    ensures
        r as int == char_at(s, b as int),
{
    if b < table.len() {
        table[b]
    } else {
        count
    }
}

// ---------------------------------------------------------------------
// The tree.
// ---------------------------------------------------------------------

/// `node` is raw node `raw`, the `k`-th of a parse of `src`, read into the
/// tree: its span in characters, its parent `None` for the root.
pub open spec fn converts(raw: RawNode, src: Seq<char>, k: int, node: SyntaxNode) -> bool {
    &&& node.kind == raw.kind
    &&& node.field == raw.field
    &&& node.named == raw.named
    &&& node.start as int == char_at(src, raw.start_byte as int)
    &&& node.end as int == char_at(src, raw.end_byte as int)
    &&& node.start_row == raw.start_row
    &&& node.end_row == raw.end_row
    &&& node.parent == (if k == 0 {
        None
    } else {
        Some(raw.parent_index)
    })
}

/// The children of node `p` among the first `upto` nodes of the parse of
/// `src` in `lang`: the later nodes whose parent it is, in order.
pub open spec fn kids_of(src: Seq<char>, lang: Language, p: int, upto: int) -> Seq<usize>
    decreases upto,
{
    if upto <= 1 {
        seq![]
    } else {
        let prev = kids_of(src, lang, p, upto - 1);
        let q = upto - 1;
        if parsed_node(src, lang, q).parent_index as int == p && p < q {
            prev.push(q as usize)
        } else {
            prev
        }
    }
}

/// `t` is the parse of `src` in `lang`, node for node in pre-order.
pub open spec fn is_parse_of(t: SyntaxTree, src: Seq<char>, lang: Language) -> bool {
    &&& t.nodes@.len() == parsed_node_count(src, lang)
    &&& forall|k: int|
        0 <= k < t.nodes@.len() ==> converts(parsed_node(src, lang, k), src, k, #[trigger] t.nodes@[k])
            && t.nodes@[k].children@ == kids_of(src, lang, k, t.nodes@.len() as int)
}

/// Reads the parse `p` into a syntax tree, node for node.
fn read_tree(p: &ParsedSource, chars: &Vec<char>) -> (r: SyntaxTree)
    requires
        chars@ == p@.0,
    ensures
        is_parse_of(r, p@.0, p@.1),
{
    let ghost src = p@.0;
    let ghost lang = p@.1;
    let table = build_char_table(chars);
    let count = node_count(p);
    let mut nodes: Vec<SyntaxNode> = Vec::new();
    let mut k: usize = 0;
    while k < count
        invariant
            chars@ == src,
            p@ == (src, lang),
            table@ == char_table(src),
            count == parsed_node_count(src, lang),
            k <= count,
            nodes@.len() == k,
            forall|j: int|
                0 <= j < k ==> converts(parsed_node(src, lang, j), src, j, #[trigger] nodes@[j])
                    && nodes@[j].children@ == Seq::<usize>::empty(),
        decreases count - k,
    {
        let raw = node_at(p, k);
        let start = char_position(&table, chars.len(), raw.start_byte, Ghost(src));
        let end = char_position(&table, chars.len(), raw.end_byte, Ghost(src));
        let parent = if k == 0 {
            None
        } else {
            Some(raw.parent_index)
        };
        nodes.push(
            SyntaxNode {
                kind: raw.kind,
                field: raw.field,
                named: raw.named,
                start,
                end,
                start_row: raw.start_row,
                end_row: raw.end_row,
                parent,
                children: Vec::new(),
            },
        );
        k += 1;
    }
    let mut q: usize = 1;
    while q < count
        invariant
            count == parsed_node_count(src, lang),
            1 <= q || count == 0,
            q <= count || count == 0,
            nodes@.len() == count,
            forall|j: int|
                0 <= j < count ==> converts(parsed_node(src, lang, j), src, j, #[trigger] nodes@[j])
                    && nodes@[j].children@ == kids_of(src, lang, j, q as int),
        decreases count - q,
    {
        let parent = match nodes[q].parent {
            Some(x) => x,
            None => 0,
        };
        assert(parent == parsed_node(src, lang, q as int).parent_index);
        if parent < q {
            let ghost before = nodes@;
            nodes[parent].children.push(q);
            assert forall|j: int| 0 <= j < count implies converts(parsed_node(src, lang, j), src, j, #[trigger] nodes@[j])
                && nodes@[j].children@ == kids_of(src, lang, j, q + 1) by {
                if j == parent as int {
                    assert(nodes@[j].children@ == before[j].children@.push(q));
                } else {
                    assert(nodes@[j] == before[j]);
                }
            }
        } else {
            assert forall|j: int| 0 <= j < count implies nodes@[j].children@ == kids_of(src, lang, j, q + 1) by {
            }
        }
        q += 1;
    }
    let tree = SyntaxTree { nodes };
    proof {
        if count <= 1 {
            assert forall|j: int| 0 <= j < count implies tree.nodes@[j].children@ == kids_of(src, lang, j, count as int) by {
            }
        }
    }
    tree
}


// ---------------------------------------------------------------------
// Definitions.
// ---------------------------------------------------------------------

/// The definition captures of the parse of `src` in `lang`.
pub open spec fn definition_captures(src: Seq<char>, lang: Language) -> Seq<(Seq<char>, usize)> {
    parsed_captures(src, lang, spec_definition_query(lang)@, 0)
}

/// The reference captures inside node `k` of the parse of `src` in `lang`.
pub open spec fn reference_captures(src: Seq<char>, lang: Language, k: int) -> Seq<(Seq<char>, usize)> {
    parsed_captures(src, lang, spec_reference_query(lang)@, k)
}

/// Whether the `i`-th definition capture names a definition: it is the
/// `@definition` capture, of a node of the parse.
pub open spec fn is_definition_at(src: Seq<char>, lang: Language) -> spec_fn(int) -> bool {
    |i: int|
        definition_captures(src, lang)[i].0 == "definition"@ && definition_captures(src, lang)[i].1
            < parsed_node_count(src, lang)
}

/// Whether the `i`-th reference capture inside node `k` names a
/// reference: its capture name starts with `reference.`, and it is of a
/// node of the parse.
pub open spec fn is_reference_at(src: Seq<char>, lang: Language, k: int) -> spec_fn(int) -> bool {
    |i: int|
        has_prefix(reference_captures(src, lang, k)[i].0, "reference."@) && reference_captures(src, lang, k)[i].1
            < parsed_node_count(src, lang)
}

/// `refs` are the texts, in match order, of the references inside node
/// `k` of `t`, the parse of `src` in `lang`.
pub open spec fn references_of(t: SyntaxTree, src: Seq<char>, lang: Language, k: int, refs: Seq<String>) -> bool {
    let caps = reference_captures(src, lang, k);
    let pos = positions_where(is_reference_at(src, lang, k), caps.len() as int);
    &&& refs.len() == pos.len()
    &&& forall|m: int| 0 <= m < refs.len() ==> (#[trigger] refs[m])@ == t.text(src, caps[pos[m]].1 as int)
}

/// `defs` are the definitions the definition query captures in `t`, the
/// parse of `src` in `lang`, in match order, each with its references.
pub open spec fn defines(t: SyntaxTree, src: Seq<char>, lang: Language, defs: Seq<Definition>) -> bool {
    let caps = definition_captures(src, lang);
    let pos = positions_where(is_definition_at(src, lang), caps.len() as int);
    &&& defs.len() == pos.len()
    &&& forall|j: int|
        0 <= j < defs.len() ==> {
            &&& (#[trigger] defs[j]).node == caps[pos[j]].1
            &&& references_of(t, src, lang, defs[j].node as int, defs[j].references@)
        }
}

fn is_reference_name(name: &String) -> (r: bool)
    ensures
        r == has_prefix(name@, "reference."@),
{
    let chars = str_to_chars(name.as_str());
    let prefix = str_to_chars("reference.");
    crate::text::starts_with(chars.as_slice(), prefix.as_slice())
}

/// The texts of the references inside node `k`; see [`references_of`].
fn read_references(p: &ParsedSource, t: &SyntaxTree, chars: &Vec<char>, k: usize) -> (refs: Vec<String>)
    requires
        chars@ == p@.0,
        is_parse_of(*t, p@.0, p@.1),
        t.well_formed(),
        t.fits(chars@.len()),
        k < t.nodes@.len(),
    ensures
        references_of(*t, p@.0, p@.1, k as int, refs@),
{
    let ghost src = p@.0;
    let ghost lang = p@.1;
    let caps = captures(p, p.lang.reference_query(), k);
    let ghost cv = caps@.map_values(|x: (String, usize)| (x.0@, x.1));
    let mut refs: Vec<String> = Vec::new();
    let mut i: usize = 0;
    while i < caps.len()
        invariant
            chars@ == src,
            p@ == (src, lang),
            is_parse_of(*t, src, lang),
            t.well_formed(),
            t.fits(chars@.len()),
            cv == reference_captures(src, lang, k as int),
            cv == caps@.map_values(|x: (String, usize)| (x.0@, x.1)),
            i <= caps@.len(),
            refs@.len() == positions_where(is_reference_at(src, lang, k as int), i as int).len(),
            forall|m: int|
                0 <= m < refs@.len() ==> (#[trigger] refs@[m])@ == t.text(
                    src,
                    cv[positions_where(is_reference_at(src, lang, k as int), i as int)[m]].1 as int,
                ),
        decreases caps.len() - i,
    {
        assert(cv[i as int] == (caps@[i as int].0@, caps@[i as int].1));
        let ghost before = positions_where(is_reference_at(src, lang, k as int), i as int);
        let x = caps[i].1;
        if is_reference_name(&caps[i].0) && x < t.nodes.len() {
            assert(is_reference_at(src, lang, k as int)(i as int));
            let text = t.node_text(chars.as_slice(), x);
            refs.push(text);
            assert forall|m: int| 0 <= m < refs@.len() implies (#[trigger] refs@[m])@ == t.text(
                src,
                cv[positions_where(is_reference_at(src, lang, k as int), i + 1)[m]].1 as int,
            ) by {
                if m < refs@.len() - 1 {
                    assert(positions_where(is_reference_at(src, lang, k as int), i + 1)[m] == before[m]);
                }
            }
        } else {
            assert(!is_reference_at(src, lang, k as int)(i as int));
        }
        i += 1;
    }
    refs
}

/// The definitions of the parse `p` read into `t`; see [`defines`].
fn read_definitions(p: &ParsedSource, t: &SyntaxTree, chars: &Vec<char>) -> (defs: Vec<Definition>)
    requires
        chars@ == p@.0,
        is_parse_of(*t, p@.0, p@.1),
        t.well_formed(),
        t.fits(chars@.len()),
        t.nodes@.len() > 0,
    ensures
        defines(*t, p@.0, p@.1, defs@),
        forall|j: int| 0 <= j < defs@.len() ==> (#[trigger] defs@[j]).node < t.nodes@.len(),
{
    let ghost src = p@.0;
    let ghost lang = p@.1;
    let caps = captures(p, p.lang.definition_query(), 0);
    let ghost cv = caps@.map_values(|x: (String, usize)| (x.0@, x.1));
    let mut defs: Vec<Definition> = Vec::new();
    let mut i: usize = 0;
    while i < caps.len()
        invariant
            chars@ == src,
            p@ == (src, lang),
            is_parse_of(*t, src, lang),
            t.well_formed(),
            t.fits(chars@.len()),
            cv == definition_captures(src, lang),
            cv == caps@.map_values(|x: (String, usize)| (x.0@, x.1)),
            i <= caps@.len(),
            defs@.len() == positions_where(is_definition_at(src, lang), i as int).len(),
            forall|j: int|
                0 <= j < defs@.len() ==> {
                    &&& (#[trigger] defs@[j]).node == cv[positions_where(is_definition_at(src, lang), i as int)[j]].1
                    &&& references_of(*t, src, lang, defs@[j].node as int, defs@[j].references@)
                    &&& defs@[j].node < t.nodes@.len()
                },
        decreases caps.len() - i,
    {
        assert(cv[i as int] == (caps@[i as int].0@, caps@[i as int].1));
        let ghost before = positions_where(is_definition_at(src, lang), i as int);
        let x = caps[i].1;
        if crate::tree::str_eq(caps[i].0.as_str(), "definition") && x < t.nodes.len() {
            assert(is_definition_at(src, lang)(i as int));
            let references = read_references(p, t, chars, x);
            defs.push(Definition { node: x, references });
            assert forall|j: int| 0 <= j < defs@.len() implies {
                &&& (#[trigger] defs@[j]).node == cv[positions_where(is_definition_at(src, lang), i + 1)[j]].1
                &&& references_of(*t, src, lang, defs@[j].node as int, defs@[j].references@)
                &&& defs@[j].node < t.nodes@.len()
            } by {
                if j < defs@.len() - 1 {
                    assert(positions_where(is_definition_at(src, lang), i + 1)[j] == before[j]);
                }
            }
        } else {
            assert(!is_definition_at(src, lang)(i as int));
        }
        i += 1;
    }
    defs
}

/// A source parsed into a tree, its characters and its definitions.
pub struct ParsedFile {
    pub tree: SyntaxTree,
    pub chars: Vec<char>,
    pub definitions: Vec<Definition>,
}

/// The parse of `source` in `lang` is a tree that extraction can read:
/// it has a root, its spans nest and lie in the source.
pub open spec fn usable_parse(source: Seq<char>, lang: Language) -> bool {
    exists|t: SyntaxTree|
        is_parse_of(t, source, lang) && t.nodes@.len() > 0 && t.well_formed() && t.fits(source.len())
}

/// Parses `source` as `lang`: the tree, node for node, and the
/// definitions its definition query captures, each with the references
/// its reference query captures inside it. `None` exactly when the parse
/// is not a tree that extraction can read.
pub fn parse_file(source: &str, lang: Language) -> (r: Option<ParsedFile>)
    ensures
        r is Some <==> usable_parse(source@, lang),
        r matches Some(f) ==> {
            &&& f.chars@ == source@
            &&& is_parse_of(f.tree, source@, lang)
            &&& f.tree.well_formed()
            &&& f.tree.fits(source@.len())
            &&& defines(f.tree, source@, lang, f.definitions@)
            &&& defs_in(f.tree, f.definitions@)
        },
{
    let p = parse_source(source, lang);
    let chars = str_to_chars(source);
    let tree = read_tree(&p, &chars);
    if tree.nodes.len() == 0 || !tree.is_well_formed(chars.len()) {
        proof {
            lemma_parse_unique(tree, source@, lang);
        }
        return None;
    }
    let definitions = read_definitions(&p, &tree, &chars);
    Some(ParsedFile { tree, chars, definitions })
}

/// Two trees that are both the parse of one source are the same tree.
proof fn lemma_parse_unique(t: SyntaxTree, src: Seq<char>, lang: Language)
    requires
        is_parse_of(t, src, lang),
    ensures
        usable_parse(src, lang) ==> t.nodes@.len() > 0 && t.well_formed() && t.fits(src.len()),
{
    if usable_parse(src, lang) {
        let u = choose|u: SyntaxTree|
            is_parse_of(u, src, lang) && u.nodes@.len() > 0 && u.well_formed() && u.fits(src.len());
        assert(t.nodes@.len() == u.nodes@.len());
        assert forall|k: int| 0 <= k < t.nodes@.len() implies {
            &&& (#[trigger] t.nodes@[k]).start == u.nodes@[k].start
            &&& t.nodes@[k].end == u.nodes@[k].end
            &&& t.nodes@[k].start_row == u.nodes@[k].start_row
            &&& t.nodes@[k].end_row == u.nodes@[k].end_row
            &&& t.nodes@[k].parent == u.nodes@[k].parent
            &&& t.nodes@[k].children@ == u.nodes@[k].children@
        } by {
            assert(converts(parsed_node(src, lang, k), src, k, t.nodes@[k]));
            assert(converts(parsed_node(src, lang, k), src, k, u.nodes@[k]));
        }
        assert forall|n: int| 0 <= n < t.size() implies #[trigger] t.node_ok(n) by {
            assert(u.node_ok(n));
            let node = t.nodes@[n];
            assert forall|k: int| 0 <= k < node.children@.len() implies {
                let c = #[trigger] node.children@[k];
                &&& n < c < t.size()
                &&& node.start <= t.nodes@[c as int].start
                &&& t.nodes@[c as int].end <= node.end
            } by {
                let c = node.children@[k];
                assert(u.nodes@[n].children@[k] == c);
            }
        }
        assert forall|n: int| 0 <= n < t.size() implies (#[trigger] t.nodes@[n]).end <= src.len() by {
            assert(u.nodes@[n].end <= src.len());
        }
    }
}

/// `v` are the symbols reported for the definitions `defs` of `t`, the
/// parse of `src` in `lang`: every one of them, nested ones included (for
/// Terraform, see [`hcl_reports`]).
pub open spec fn all_symbols_of(t: SyntaxTree, src: Seq<char>, lang: Language, defs: Seq<Definition>, v: Seq<ExtractedSymbol>) -> bool {
    if lang == Language::Hcl {
        hcl_reports(t, src, defs, true, seq![], v)
    } else {
        reports(t, src, lang, defs, all_positions(t, defs), v)
    }
}

/// `v` are the symbols reported for the definitions `defs` of `t` that
/// contain a line of `ranges` (for Terraform, see [`hcl_reports`]).
pub open spec fn changed_symbols_of(
    t: SyntaxTree,
    src: Seq<char>,
    lang: Language,
    defs: Seq<Definition>,
    ranges: Seq<LineRange>,
    v: Seq<ExtractedSymbol>,
) -> bool {
    if lang == Language::Hcl {
        hcl_reports(t, src, defs, false, ranges, v)
    } else {
        reports(t, src, lang, defs, changed_positions(t, defs, ranges), v)
    }
}

/// The symbols of the definitions of `source` that contain a changed
/// line (see [`extract_changed_symbols`] and, for Terraform,
/// [`extract_changed_hcl_symbols`]); `None` when the parse is not a tree
/// that extraction can read.
pub fn extract_changed_symbols_from_source(
    source: &str,
    lang: Language,
    changed_ranges: &[LineRange],
) -> (r: Option<Vec<ExtractedSymbol>>)
    ensures
        r is Some <==> usable_parse(source@, lang),
        r matches Some(v) ==> exists|f: ParsedFile|
            {
                &&& is_parse_of(f.tree, source@, lang)
                &&& defines(f.tree, source@, lang, f.definitions@)
                &&& changed_symbols_of(f.tree, source@, lang, f.definitions@, changed_ranges@, v@)
            },
{
    match parse_file(source, lang) {
        Some(f) => {
            let v = if lang == Language::Hcl {
                extract_changed_hcl_symbols(&f.tree, f.chars.as_slice(), &f.definitions, changed_ranges)
            } else {
                extract_changed_symbols(&f.tree, f.chars.as_slice(), &f.definitions, lang, changed_ranges)
            };
            Some(v)
        },
        None => None,
    }
}

/// The symbols of every definition of `f`, the parse of `source` in
/// `lang`; see [`all_symbols_of`].
fn all_symbols(f: &ParsedFile, lang: Language, Ghost(source): Ghost<Seq<char>>) -> (v: Vec<ExtractedSymbol>)
    requires
        f.chars@ == source,
        f.tree.well_formed(),
        f.tree.fits(source.len()),
        defs_in(f.tree, f.definitions@),
    ensures
        all_symbols_of(f.tree, source, lang, f.definitions@, v@),
{
    if lang == Language::Hcl {
        extract_all_hcl_symbols(&f.tree, f.chars.as_slice(), &f.definitions)
    } else {
        extract_all_symbols(&f.tree, f.chars.as_slice(), &f.definitions, lang)
    }
}

/// Every definition of `source`, nested ones included (see
/// [`extract_all_symbols`] and, for Terraform,
/// [`extract_all_hcl_symbols`]); `None` when the parse is not a tree that
/// extraction can read.
pub fn extract_all_symbols_from_source(source: &str, lang: Language) -> (r: Option<Vec<ExtractedSymbol>>)
    ensures
        r is Some <==> usable_parse(source@, lang),
        r matches Some(v) ==> exists|f: ParsedFile|
            {
                &&& is_parse_of(f.tree, source@, lang)
                &&& defines(f.tree, source@, lang, f.definitions@)
                &&& all_symbols_of(f.tree, source@, lang, f.definitions@, v@)
            },
{
    match parse_file(source, lang) {
        Some(f) => {
            let v = all_symbols(&f, lang, Ghost(source@));
            Some(v)
        },
        None => None,
    }
}

/// `entries` are what indexing the file at `path` adds: when the file is
/// admitted (see [`spec_should_index`]) and its parse can be read, the
/// entries of every definition extracted from it, test symbols only if
/// `include_tests`; for any other file, nothing.
pub open spec fn file_entries(
    path: String,
    content: Seq<char>,
    include_tests: bool,
    generated_paths: Seq<Seq<char>>,
    include_generated: bool,
    names: Seq<Seq<char>>,
    entries: Seq<(String, ResolvedSymbol)>,
) -> bool {
    let lang = spec_language_for_path(path@).unwrap();
    if spec_should_index(path@, content, include_tests, generated_paths, include_generated, names) && usable_parse(
        content,
        lang,
    ) {
        exists|f: ParsedFile, v: Seq<ExtractedSymbol>|
            {
                &&& is_parse_of(f.tree, content, lang)
                &&& defines(f.tree, content, lang, f.definitions@)
                &&& all_symbols_of(f.tree, content, lang, f.definitions@, v)
                &&& entries == indexed(path, v, include_tests)
            }
    } else {
        entries == Seq::<(String, ResolvedSymbol)>::empty()
    }
}

/// `v` are the symbols extracted from `content`, the content of the file
/// at `path`, parsed in the language its path names.
pub open spec fn extracted(path: String, content: Seq<char>, v: Seq<ExtractedSymbol>) -> bool {
    let lang = spec_language_for_path(path@).unwrap();
    exists|f: ParsedFile|
        {
            &&& is_parse_of(f.tree, content, lang)
            &&& defines(f.tree, content, lang, f.definitions@)
            &&& all_symbols_of(f.tree, content, lang, f.definitions@, v)
        }
}

/// The paths of `files`.
pub open spec fn paths_of(files: Seq<(String, String)>) -> Seq<String> {
    files.map_values(|x: (String, String)| x.0)
}

/// The contents of `files`.
pub open spec fn contents_of(files: Seq<(String, String)>) -> Seq<Seq<char>> {
    files.map_values(|x: (String, String)| x.1@)
}

/// For each of `files`, symbols that account for its `parts` entry: the
/// ones extracted from it when it was parsed, none otherwise.
pub open spec fn symbols_for(
    files: Seq<(String, String)>,
    parts: Seq<Seq<(String, ResolvedSymbol)>>,
    include_tests: bool,
    generated_paths: Seq<Seq<char>>,
    include_generated: bool,
    names: Seq<Seq<char>>,
) -> Seq<Seq<ExtractedSymbol>> {
    Seq::new(
        files.len(),
        |k: int|
            {
                let path = files[k].0;
                let content = files[k].1@;
                if spec_should_index(path@, content, include_tests, generated_paths, include_generated, names)
                    && usable_parse(content, spec_language_for_path(path@).unwrap()) {
                    choose|v: Seq<ExtractedSymbol>| extracted(path, content, v) && parts[k] == indexed(path, v, include_tests)
                } else {
                    Seq::<ExtractedSymbol>::empty()
                }
            },
    )
}

proof fn lemma_parts_are_files_index(
    files: Seq<(String, String)>,
    parts: Seq<Seq<(String, ResolvedSymbol)>>,
    include_tests: bool,
    generated_paths: Seq<Seq<char>>,
    include_generated: bool,
    names: Seq<Seq<char>>,
    m: int,
)
    requires
        0 <= m <= files.len(),
        parts.len() == files.len(),
        forall|k: int|
            0 <= k < files.len() ==> file_entries(
                files[k].0,
                files[k].1@,
                include_tests,
                generated_paths,
                include_generated,
                names,
                #[trigger] parts[k],
            ),
    ensures
        parts.take(m).flatten_alt() == files_index(
            paths_of(files).take(m),
            contents_of(files),
            symbols_for(files, parts, include_tests, generated_paths, include_generated, names),
            include_tests,
            generated_paths,
            include_generated,
            Some(names),
        ),
    decreases m,
{
    let syms = symbols_for(files, parts, include_tests, generated_paths, include_generated, names);
    if m == 0 {
        assert(parts.take(0) =~= Seq::<Seq<(String, ResolvedSymbol)>>::empty());
    } else {
        lemma_parts_are_files_index(files, parts, include_tests, generated_paths, include_generated, names, m - 1);
        let k = m - 1;
        assert(parts.take(m).drop_last() =~= parts.take(k));
        assert(parts.take(m).last() == parts[k]);
        assert(paths_of(files).take(m).drop_last() =~= paths_of(files).take(k));
        assert(paths_of(files).take(m)[k] == files[k].0);
        assert(contents_of(files)[k] == files[k].1@);
        assert(file_entries(files[k].0, files[k].1@, include_tests, generated_paths, include_generated, names, parts[k]));
        let path = files[k].0;
        let content = files[k].1@;
        if spec_should_index(path@, content, include_tests, generated_paths, include_generated, names) && usable_parse(
            content,
            spec_language_for_path(path@).unwrap(),
        ) {
            let (f, v) = choose|f: ParsedFile, v: Seq<ExtractedSymbol>|
                {
                    &&& is_parse_of(f.tree, content, spec_language_for_path(path@).unwrap())
                    &&& defines(f.tree, content, spec_language_for_path(path@).unwrap(), f.definitions@)
                    &&& all_symbols_of(f.tree, content, spec_language_for_path(path@).unwrap(), f.definitions@, v)
                    &&& parts[k] == indexed(path, v, include_tests)
                };
            assert(extracted(path, content, v));
            assert(parts[k] == indexed(path, syms[k], include_tests));
        } else {
            assert(syms[k] == Seq::<ExtractedSymbol>::empty());
            assert(indexed(path, syms[k], include_tests) =~= Seq::<(String, ResolvedSymbol)>::empty());
        }
    }
}

impl TagsResolver {
    /// Indexes the file at `path`; see [`file_entries`].
    pub fn add_file(
        &mut self,
        path: &String,
        content: &str,
        include_tests: bool,
        generated_paths: &Vec<String>,
        include_generated: bool,
        matcher: &NameMatcher,
    )
        ensures
            exists|entries: Seq<(String, ResolvedSymbol)>|
                {
                    &&& file_entries(
                        *path,
                        content@,
                        include_tests,
                        string_views(generated_paths@),
                        include_generated,
                        matcher.names(),
                        entries,
                    )
                    &&& final(self).index() == old(self).index() + entries
                },
    {
        let ghost start = self.index();
        if !should_index_file(path.as_str(), content, include_tests, generated_paths, include_generated, matcher) {
            assert(self.index() == start + Seq::<(String, ResolvedSymbol)>::empty());
            return;
        }
        let lang = match language_for_path(path.as_str()) {
            Some(lang) => lang,
            None => return,
        };
        match parse_file(content, lang) {
            Some(f) => {
                let symbols = all_symbols(&f, lang, Ghost(content@));
                self.add_file_symbols(path, &symbols, include_tests);
            },
            None => {
                assert(self.index() == start + Seq::<(String, ResolvedSymbol)>::empty());
            },
        }
    }

    /// Builds the repository-wide definition index from `(path, content)`
    /// pairs, file by file in order (see [`TagsResolver::add_file`]), a
    /// file admitted only when it holds one of `reference_names`. `None`
    /// exactly when no matcher for `reference_names` can be built. With no
    /// reference names, nothing is indexed. The index is the prefiltered
    /// [`files_index`] of the files' extracted symbols, so by
    /// [`crate::deps::law_prefilter_keeps_every_resolution`] a referenced
    /// name resolves in it as it would with every indexable file indexed,
    /// whenever every symbol's name is text of its file.
    pub fn new(
        files: Vec<(String, String)>,
        reference_names: Vec<String>,
        include_tests: bool,
        generated_paths: &Vec<String>,
        include_generated: bool,
    ) -> (r: Option<TagsResolver>)
        ensures
            r is Some <==> automaton_builds(string_views(reference_names@)),
            reference_names@.len() == 0 ==> (r matches Some(t) ==> t.index().len() == 0),
            r matches Some(t) ==> exists|parts: Seq<Seq<(String, ResolvedSymbol)>>|
                {
                    &&& parts.len() == files@.len()
                    &&& forall|i: int|
                        0 <= i < files@.len() ==> file_entries(
                            files@[i].0,
                            files@[i].1@,
                            include_tests,
                            string_views(generated_paths@),
                            include_generated,
                            string_views(reference_names@),
                            #[trigger] parts[i],
                        )
                    &&& t.index() == parts.flatten_alt()
                },
            r matches Some(t) ==> exists|symbols: Seq<Seq<ExtractedSymbol>>|
                {
                    &&& symbols.len() == files@.len()
                    &&& forall|k: int|
                        0 <= k < files@.len() && spec_should_index(
                            files@[k].0@,
                            files@[k].1@,
                            include_tests,
                            string_views(generated_paths@),
                            include_generated,
                            string_views(reference_names@),
                        ) && usable_parse(files@[k].1@, spec_language_for_path(files@[k].0@).unwrap()) ==> extracted(
                            files@[k].0,
                            files@[k].1@,
                            #[trigger] symbols[k],
                        )
                    &&& t.index() == files_index(
                        paths_of(files@),
                        contents_of(files@),
                        symbols,
                        include_tests,
                        string_views(generated_paths@),
                        include_generated,
                        Some(string_views(reference_names@)),
                    )
                },
    {
        let ghost names = string_views(reference_names@);
        let matcher = match NameMatcher::for_names(reference_names) {
            Some(m) => m,
            None => return None,
        };
        let mut resolver = TagsResolver::empty();
        let ghost mut parts: Seq<Seq<(String, ResolvedSymbol)>> = seq![];
        let mut i: usize = 0;
        while i < files.len()
            invariant
                i <= files@.len(),
                matcher.names() == names,
                parts.len() == i,
                forall|k: int|
                    0 <= k < i ==> file_entries(
                        files@[k].0,
                        files@[k].1@,
                        include_tests,
                        string_views(generated_paths@),
                        include_generated,
                        names,
                        #[trigger] parts[k],
                    ),
                resolver.index() == parts.flatten_alt(),
                names.len() == 0 ==> resolver.index().len() == 0,
            decreases files.len() - i,
        {
            let ghost before = resolver.index();
            resolver.add_file(&files[i].0, files[i].1.as_str(), include_tests, generated_paths, include_generated, &matcher);
            let ghost entries = choose|entries: Seq<(String, ResolvedSymbol)>|
                {
                    &&& file_entries(
                        files@[i as int].0,
                        files@[i as int].1@,
                        include_tests,
                        string_views(generated_paths@),
                        include_generated,
                        names,
                        entries,
                    )
                    &&& resolver.index() == before + entries
                };
            proof {
                if names.len() == 0 {
                    assert(!some_name_occurs(names, files@[i as int].1@));
                    assert(entries.len() == 0);
                }
                assert(parts.push(entries).drop_last() =~= parts);
                parts = parts.push(entries);
            }
            i += 1;
        }
        proof {
            let gen = string_views(generated_paths@);
            lemma_parts_are_files_index(files@, parts, include_tests, gen, include_generated, names, files@.len() as int);
            assert(parts.take(files@.len() as int) =~= parts);
            assert(paths_of(files@).take(files@.len() as int) =~= paths_of(files@));
            let syms = symbols_for(files@, parts, include_tests, gen, include_generated, names);
            assert forall|k: int|
                0 <= k < files@.len() && spec_should_index(files@[k].0@, files@[k].1@, include_tests, gen, include_generated, names)
                    && usable_parse(files@[k].1@, spec_language_for_path(files@[k].0@).unwrap()) implies extracted(
                files@[k].0,
                files@[k].1@,
                #[trigger] syms[k],
            ) by {
                assert(file_entries(files@[k].0, files@[k].1@, include_tests, gen, include_generated, names, parts[k]));
                let (f, v) = choose|f: ParsedFile, v: Seq<ExtractedSymbol>|
                    {
                        &&& is_parse_of(f.tree, files@[k].1@, spec_language_for_path(files@[k].0@).unwrap())
                        &&& defines(f.tree, files@[k].1@, spec_language_for_path(files@[k].0@).unwrap(), f.definitions@)
                        &&& all_symbols_of(f.tree, files@[k].1@, spec_language_for_path(files@[k].0@).unwrap(), f.definitions@, v)
                        &&& parts[k] == indexed(files@[k].0, v, include_tests)
                    };
                assert(extracted(files@[k].0, files@[k].1@, v));
            }
        }
        Some(resolver)
    }
}

} // verus!
