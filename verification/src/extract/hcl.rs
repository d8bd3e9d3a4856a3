//! Terraform (HCL) symbols: each top-level block of a known type, named in
//! Terraform's reference syntax (`aws_instance.web`, `var.region`), a
//! `locals` block expanded into one symbol per attribute, and the
//! traversals a symbol's body reads (`var.x`, `aws_instance.web.id`)
//! normalized to the names they reference.
use vstd::prelude::*;

use crate::deps::string_views;
use crate::diff::{opt_string_view, LineRange};
use crate::extract::symbols::{defs_in, Definition};
use crate::extract::{overlaps_any, spec_overlaps_any, ExtractedSymbol, SymbolKind};
use crate::syntax::{tidied, tidy_names};
use crate::text::chars_to_string;
use crate::tree::{str_eq, SyntaxTree};

verus! {

// ---------------------------------------------------------------------
// Children by kind.
// ---------------------------------------------------------------------

/// The first of `kids` whose kind is `kind`.
pub open spec fn first_of_kind(t: SyntaxTree, kids: Seq<usize>, kind: Seq<char>) -> Option<usize>
    decreases kids.len(),
{
    if kids.len() == 0 {
        None
    } else {
        match first_of_kind(t, kids.drop_last(), kind) {
            Some(x) => Some(x),
            None => if t.kind(kids.last() as int) == kind {
                Some(kids.last())
            } else {
                None
            },
        }
    }
}

proof fn lemma_first_of_kind_prefix(t: SyntaxTree, kids: Seq<usize>, m: int, kind: Seq<char>)
    requires
        0 <= m <= kids.len(),
        first_of_kind(t, kids.take(m), kind) is Some,
    ensures
        first_of_kind(t, kids, kind) == first_of_kind(t, kids.take(m), kind),
    decreases kids.len(),
{
    if m < kids.len() {
        assert(kids.drop_last().take(m) =~= kids.take(m));
        lemma_first_of_kind_prefix(t, kids.drop_last(), m, kind);
    } else {
        assert(kids.take(m) =~= kids);
    }
}

proof fn lemma_first_of_kind_in(t: SyntaxTree, kids: Seq<usize>, kind: Seq<char>)
    ensures
        first_of_kind(t, kids, kind) matches Some(x) ==> exists|k: int| 0 <= k < kids.len() && kids[k] == x,
    decreases kids.len(),
{
    if kids.len() > 0 {
        lemma_first_of_kind_in(t, kids.drop_last(), kind);
        if let Some(x) = first_of_kind(t, kids.drop_last(), kind) {
            let k = choose|k: int| 0 <= k < kids.drop_last().len() && kids.drop_last()[k] == x;
            assert(kids[k] == x);
        } else if let Some(x) = first_of_kind(t, kids, kind) {
            assert(kids[kids.len() - 1] == x);
        }
    }
}

/// The first child of node `n` whose kind is `kind`.
fn child_of_kind(t: &SyntaxTree, n: usize, kind: &str) -> (r: Option<usize>)
    requires
        t.well_formed(),
        n < t.size(),
    ensures
        r == first_of_kind(*t, t.kids(n as int), kind@),
        r matches Some(x) ==> n < x < t.size(),
{
    let kids = &t.nodes[n].children;
    assert(t.node_ok(n as int));
    let mut i: usize = 0;
    assert(kids@.take(0) =~= Seq::<usize>::empty());
    while i < kids.len()
        invariant
            t.well_formed(),
            n < t.size(),
            t.node_ok(n as int),
            kids@ == t.kids(n as int),
            i <= kids@.len(),
            first_of_kind(*t, kids@.take(i as int), kind@) is None,
        decreases kids.len() - i,
    {
        assert(kids@.take(i + 1).drop_last() =~= kids@.take(i as int));
        assert(kids@.take(i + 1).last() == kids@[i as int]);
        let c = kids[i];
        if t.kind_is(c, kind) {
            proof {
                lemma_first_of_kind_prefix(*t, kids@, i + 1, kind@);
            }
            return Some(c);
        }
        i += 1;
    }
    assert(kids@.take(i as int) =~= kids@);
    None
}

// ---------------------------------------------------------------------
// Labels and names.
// ---------------------------------------------------------------------

/// The text inside a quoted label: the first `template_literal` among the
/// first `upto` children of node `n` and, in turn, their descendants
/// (the quote marks are passed over).
pub open spec fn lit_text(t: SyntaxTree, src: Seq<char>, n: int, upto: int) -> Option<Seq<char>>
    decreases t.size() - n, upto,
{
    if upto <= 0 || n < 0 || n >= t.size() || upto > t.kids(n).len() {
        None
    } else {
        match lit_text(t, src, n, upto - 1) {
            Some(x) => Some(x),
            None => {
                let c = t.kids(n)[upto - 1] as int;
                if !(n < c < t.size()) {
                    None
                } else if t.kind(c) == "template_literal"@ {
                    Some(t.text(src, c))
                } else if t.kind(c) == "quoted_template_start"@ || t.kind(c) == "quoted_template_end"@ {
                    None
                } else {
                    lit_text(t, src, c, t.kids(c).len() as int)
                }
            },
        }
    }
}

proof fn lemma_lit_text_prefix(t: SyntaxTree, src: Seq<char>, n: int, m: int, upto: int)
    requires
        0 <= m <= upto <= t.kids(n).len(),
        lit_text(t, src, n, m) is Some,
    ensures
        lit_text(t, src, n, upto) == lit_text(t, src, n, m),
    decreases upto - m,
{
    if m < upto {
        lemma_lit_text_prefix(t, src, n, m, upto - 1);
    }
}

/// The text of a quoted label node; see [`lit_text`].
fn label_text(t: &SyntaxTree, src: &[char], n: usize) -> (r: Option<String>)
    requires
        t.well_formed(),
        t.fits(src@.len()),
        n < t.size(),
    ensures
        opt_string_view(r) == lit_text(*t, src@, n as int, t.kids(n as int).len() as int),
    decreases t.size() - n,
{
    let kids = &t.nodes[n].children;
    assert(t.node_ok(n as int));
    let mut i: usize = 0;
    while i < kids.len()
        invariant
            t.well_formed(),
            t.fits(src@.len()),
            n < t.size(),
            t.node_ok(n as int),
            kids@ == t.kids(n as int),
            i <= kids@.len(),
            lit_text(*t, src@, n as int, i as int) is None,
        decreases kids.len() - i,
    {
        let c = kids[i];
        assert(n < c < t.size());
        if t.kind_is(c, "template_literal") {
            let s = t.node_text(src, c);
            assert(lit_text(*t, src@, n as int, i + 1) == Some(s@));
            proof {
                lemma_lit_text_prefix(*t, src@, n as int, i + 1, kids@.len() as int);
            }
            return Some(s);
        } else if t.kind_is(c, "quoted_template_start") || t.kind_is(c, "quoted_template_end") {
            assert(lit_text(*t, src@, n as int, i + 1) is None);
        } else {
            match label_text(t, src, c) {
                Some(s) => {
                    assert(lit_text(*t, src@, n as int, i + 1) == Some(s@));
                    proof {
                        lemma_lit_text_prefix(*t, src@, n as int, i + 1, kids@.len() as int);
                    }
                    return Some(s);
                },
                None => {
                    assert(lit_text(*t, src@, n as int, i + 1) is None);
                },
            }
        }
        i += 1;
    }
    None
}

/// The texts of the quoted labels among `kids`, in order.
pub open spec fn labels_in(t: SyntaxTree, src: Seq<char>, kids: Seq<usize>) -> Seq<Seq<char>>
    decreases kids.len(),
{
    if kids.len() == 0 {
        seq![]
    } else {
        let prev = labels_in(t, src, kids.drop_last());
        let c = kids.last() as int;
        if t.kind(c) == "string_lit"@ {
            match lit_text(t, src, c, t.kids(c).len() as int) {
                Some(x) => prev.push(x),
                None => prev,
            }
        } else {
            prev
        }
    }
}

fn block_labels(t: &SyntaxTree, src: &[char], n: usize) -> (r: Vec<String>)
    requires
        t.well_formed(),
        t.fits(src@.len()),
        n < t.size(),
    ensures
        string_views(r@) == labels_in(*t, src@, t.kids(n as int)),
{
    let kids = &t.nodes[n].children;
    assert(t.node_ok(n as int));
    let mut out: Vec<String> = Vec::new();
    let mut i: usize = 0;
    assert(kids@.take(0) =~= Seq::<usize>::empty());
    while i < kids.len()
        invariant
            t.well_formed(),
            t.fits(src@.len()),
            n < t.size(),
            t.node_ok(n as int),
            kids@ == t.kids(n as int),
            i <= kids@.len(),
            string_views(out@) == labels_in(*t, src@, kids@.take(i as int)),
        decreases kids.len() - i,
    {
        assert(kids@.take(i + 1).drop_last() =~= kids@.take(i as int));
        assert(kids@.take(i + 1).last() == kids@[i as int]);
        let c = kids[i];
        if t.kind_is(c, "string_lit") {
            match label_text(t, src, c) {
                Some(s) => {
                    out.push(s);
                    assert(string_views(out@) =~= labels_in(*t, src@, kids@.take(i + 1)));
                },
                None => {},
            }
        }
        i += 1;
    }
    assert(kids@.take(i as int) =~= kids@);
    out
}

/// A block's name in Terraform reference syntax, from its type keyword
/// and its labels; `None` for a block type that defines nothing others
/// refer to (`terraform`, unknown types) or a label count that does not
/// fit its type.
pub open spec fn block_name(block_type: Seq<char>, labels: Seq<Seq<char>>) -> Option<Seq<char>> {
    if block_type == "resource"@ && labels.len() == 2 {
        Some(labels[0] + "."@ + labels[1])
    } else if block_type == "data"@ && labels.len() == 2 {
        Some("data."@ + labels[0] + "."@ + labels[1])
    } else if block_type == "module"@ && labels.len() == 1 {
        Some("module."@ + labels[0])
    } else if block_type == "variable"@ && labels.len() == 1 {
        Some("var."@ + labels[0])
    } else if block_type == "output"@ && labels.len() == 1 {
        Some("output."@ + labels[0])
    } else if block_type == "provider"@ && labels.len() == 1 {
        Some("provider."@ + labels[0])
    } else {
        None
    }
}

fn concat(a: &str, b: &str) -> (r: String)
    ensures
        r@ == a@ + b@,
{
    let mut s = String::from_str(a);
    s.append(b);
    s
}

fn name_of_block(block_type: &str, labels: &Vec<String>) -> (r: Option<String>)
    ensures
        opt_string_view(r) == block_name(block_type@, string_views(labels@)),
{
    let ghost l = string_views(labels@);
    if labels.len() == 2 {
        assert(l[0] == labels@[0]@ && l[1] == labels@[1]@);
        if str_eq(block_type, "resource") {
            let a = concat(labels[0].as_str(), ".");
            return Some(concat(a.as_str(), labels[1].as_str()));
        } else if str_eq(block_type, "data") {
            let a = concat("data.", labels[0].as_str());
            let b = concat(a.as_str(), ".");
            return Some(concat(b.as_str(), labels[1].as_str()));
        }
        return None;
    }
    if labels.len() == 1 {
        assert(l[0] == labels@[0]@);
        if str_eq(block_type, "module") {
            return Some(concat("module.", labels[0].as_str()));
        } else if str_eq(block_type, "variable") {
            return Some(concat("var.", labels[0].as_str()));
        } else if str_eq(block_type, "output") {
            return Some(concat("output.", labels[0].as_str()));
        } else if str_eq(block_type, "provider") {
            return Some(concat("provider.", labels[0].as_str()));
        }
    }
    None
}

// ---------------------------------------------------------------------
// Signatures.
// ---------------------------------------------------------------------

pub open spec fn is_blank(c: char) -> bool {
    c == ' ' || c == '\t' || c == '\n' || c == '\r'
}

/// `s` without its trailing blanks.
pub open spec fn trim_end(s: Seq<char>) -> Seq<char>
    decreases s.len(),
{
    if s.len() > 0 && is_blank(s.last()) {
        trim_end(s.drop_last())
    } else {
        s
    }
}

fn blank(c: char) -> (r: bool)
    ensures
        r == is_blank(c),
{
    c == ' ' || c == '\t' || c == '\n' || c == '\r'
}

fn trimmed_end(s: &[char]) -> (r: String)
    ensures
        r@ == trim_end(s@),
{
    let mut k: usize = s.len();
    assert(s@.take(k as int) =~= s@);
    while k > 0 && blank(s[k - 1])
        invariant
            k <= s@.len(),
            trim_end(s@) == trim_end(s@.take(k as int)),
        decreases k,
    {
        assert(s@.take(k as int).drop_last() =~= s@.take(k - 1));
        assert(s@.take(k as int).last() == s@[k - 1]);
        k -= 1;
    }
    assert(s@.subrange(0, k as int) =~= s@.take(k as int));
    chars_to_string(&s[0..k])
}

/// The signature of block `n` of type `block_type`: the whole block for a
/// `variable` or `output` (its body is its contract), else its header,
/// the text before its opening brace.
pub open spec fn block_signature(t: SyntaxTree, src: Seq<char>, n: int, block_type: Seq<char>) -> Seq<char> {
    if block_type == "variable"@ || block_type == "output"@ {
        t.text(src, n)
    } else {
        match first_of_kind(t, t.kids(n), "block_start"@) {
            Some(b) => trim_end(src.subrange(t.nodes@[n].start as int, t.nodes@[b as int].start as int)),
            None => t.text(src, n),
        }
    }
}

fn signature_of_block(t: &SyntaxTree, src: &[char], n: usize, block_type: &str) -> (r: String)
    requires
        t.well_formed(),
        t.fits(src@.len()),
        n < t.size(),
    ensures
        r@ == block_signature(*t, src@, n as int, block_type@),
{
    if str_eq(block_type, "variable") || str_eq(block_type, "output") {
        return t.node_text(src, n);
    }
    match child_of_kind(t, n, "block_start") {
        Some(b) => {
            assert(t.node_ok(n as int));
            assert(t.node_ok(b as int));
            proof {
                lemma_first_of_kind_in(*t, t.kids(n as int), "block_start"@);
            }
            let ghost k = choose|k: int| 0 <= k < t.kids(n as int).len() && t.kids(n as int)[k] == b;
            assert(t.nodes@[n as int].children@[k] == b);
            let start = t.nodes[n].start;
            let stop = t.nodes[b].start;
            assert(t.nodes@[b as int].end <= src@.len());
            let head = &src[start..stop];
            assert(head@ =~= src@.subrange(start as int, stop as int));
            trimmed_end(head)
        },
        None => t.node_text(src, n),
    }
}

// ---------------------------------------------------------------------
// Referenced names.
// ---------------------------------------------------------------------

/// Traversal roots that name no definition: iteration and meta values.
pub open spec fn is_meta_root(root: Seq<char>) -> bool {
    root == "each"@ || root == "count"@ || root == "self"@ || root == "path"@ || root == "terraform"@
}

/// The attribute names of the `get_attr` nodes that follow one another
/// from position `j` of `kids`.
pub open spec fn attr_names(t: SyntaxTree, src: Seq<char>, kids: Seq<usize>, j: int) -> Seq<Seq<char>>
    decreases kids.len() - j,
{
    if j < 0 || j >= kids.len() || t.kind(kids[j] as int) != "get_attr"@ {
        seq![]
    } else {
        let rest = attr_names(t, src, kids, j + 1);
        match first_of_kind(t, t.kids(kids[j] as int), "identifier"@) {
            Some(i) => seq![t.text(src, i as int)] + rest,
            None => rest,
        }
    }
}

/// The first position of `v` in `kids`.
pub open spec fn position_in(kids: Seq<usize>, v: usize) -> Option<int>
    decreases kids.len(),
{
    if kids.len() == 0 {
        None
    } else {
        match position_in(kids.drop_last(), v) {
            Some(x) => Some(x),
            None => if kids.last() == v {
                Some(kids.len() - 1)
            } else {
                None
            },
        }
    }
}

/// The name the traversal starting at `variable_expr` node `v` references:
/// its root with one attribute (two for `data`), or `None` for a meta
/// root or a traversal too short to name a definition.
pub open spec fn traversal_name(t: SyntaxTree, src: Seq<char>, v: int) -> Option<Seq<char>> {
    match first_of_kind(t, t.kids(v), "identifier"@) {
        None => None,
        Some(i) => {
            let root = t.text(src, i as int);
            if is_meta_root(root) {
                None
            } else {
                match t.nodes@[v].parent {
                    None => None,
                    Some(p) => match position_in(t.kids(p as int), v as usize) {
                        None => None,
                        Some(j) => {
                            let attrs = attr_names(t, src, t.kids(p as int), j + 1);
                            if root == "data"@ {
                                if attrs.len() < 2 {
                                    None
                                } else {
                                    Some(root + "."@ + attrs[0] + "."@ + attrs[1])
                                }
                            } else if attrs.len() < 1 {
                                None
                            } else {
                                Some(root + "."@ + attrs[0])
                            }
                        },
                    },
                }
            }
        },
    }
}

fn child_position(kids: &Vec<usize>, v: usize) -> (r: Option<usize>)
    ensures
        match r {
            Some(j) => position_in(kids@, v) == Some(j as int) && j < kids@.len(),
            None => position_in(kids@, v) is None,
        },
{
    let mut i: usize = 0;
    assert(kids@.take(0) =~= Seq::<usize>::empty());
    while i < kids.len()
        invariant
            i <= kids@.len(),
            position_in(kids@.take(i as int), v) is None,
        decreases kids.len() - i,
    {
        assert(kids@.take(i + 1).drop_last() =~= kids@.take(i as int));
        if kids[i] == v {
            proof {
                lemma_position_prefix(kids@, i + 1, v);
            }
            return Some(i);
        }
        i += 1;
    }
    assert(kids@.take(i as int) =~= kids@);
    None
}

proof fn lemma_position_prefix(kids: Seq<usize>, m: int, v: usize)
    requires
        0 <= m <= kids.len(),
        position_in(kids.take(m), v) is Some,
    ensures
        position_in(kids, v) == position_in(kids.take(m), v),
    decreases kids.len(),
{
    if m < kids.len() {
        assert(kids.drop_last().take(m) =~= kids.take(m));
        lemma_position_prefix(kids.drop_last(), m, v);
    } else {
        assert(kids.take(m) =~= kids);
    }
}

fn traversal_attrs(t: &SyntaxTree, src: &[char], kids: &Vec<usize>, from: usize) -> (r: Vec<String>)
    requires
        t.well_formed(),
        t.fits(src@.len()),
        forall|k: int| 0 <= k < kids@.len() ==> (#[trigger] kids@[k]) < t.size(),
    ensures
        string_views(r@) == attr_names(*t, src@, kids@, from as int),
{
    let mut out: Vec<String> = Vec::new();
    let mut j: usize = from;
    while j < kids.len() && t.kind_is(kids[j], "get_attr")
        invariant
            t.well_formed(),
            t.fits(src@.len()),
            forall|k: int| 0 <= k < kids@.len() ==> (#[trigger] kids@[k]) < t.size(),
            from <= j,
            string_views(out@) + attr_names(*t, src@, kids@, j as int) == attr_names(*t, src@, kids@, from as int),
        decreases kids.len() - j,
    {
        let ghost before = string_views(out@);
        match child_of_kind(t, kids[j], "identifier") {
            Some(i) => {
                let text = t.node_text(src, i);
                out.push(text);
                assert(string_views(out@) =~= before.push(text@));
                assert(before.push(text@) + attr_names(*t, src@, kids@, j + 1) =~= before + (seq![text@] + attr_names(*t, src@, kids@, j + 1)));
            },
            None => {},
        }
        j += 1;
    }
    assert(attr_names(*t, src@, kids@, j as int) =~= Seq::<Seq<char>>::empty());
    assert(string_views(out@) + Seq::<Seq<char>>::empty() =~= string_views(out@));
    out
}

fn traversal(t: &SyntaxTree, src: &[char], v: usize) -> (r: Option<String>)
    requires
        t.well_formed(),
        t.fits(src@.len()),
        v < t.size(),
    ensures
        opt_string_view(r) == traversal_name(*t, src@, v as int),
{
    let root = match child_of_kind(t, v, "identifier") {
        Some(i) => t.node_text(src, i),
        None => return None,
    };
    let r = root.as_str();
    if str_eq(r, "each") || str_eq(r, "count") || str_eq(r, "self") || str_eq(r, "path") || str_eq(r, "terraform") {
        return None;
    }
    assert(t.node_ok(v as int));
    let p = match t.nodes[v].parent {
        Some(p) => p,
        None => return None,
    };
    assert(t.node_ok(p as int));
    let kids = &t.nodes[p].children;
    let j = match child_position(kids, v) {
        Some(j) => j,
        None => return None,
    };
    proof {
        assert forall|k: int| 0 <= k < kids@.len() implies (#[trigger] kids@[k]) < t.size() by {
            assert(t.nodes@[p as int].children@[k] == kids@[k]);
        }
    }
    let count = kids.len();
    assert(j < count);
    let attrs = traversal_attrs(t, src, kids, j + 1);
    let ghost a = string_views(attrs@);
    if str_eq(r, "data") {
        if attrs.len() < 2 {
            return None;
        }
        assert(a[0] == attrs@[0]@ && a[1] == attrs@[1]@);
        let x = concat(r, ".");
        let y = concat(x.as_str(), attrs[0].as_str());
        let z = concat(y.as_str(), ".");
        Some(concat(z.as_str(), attrs[1].as_str()))
    } else {
        if attrs.len() < 1 {
            return None;
        }
        assert(a[0] == attrs@[0]@);
        let x = concat(r, ".");
        Some(concat(x.as_str(), attrs[0].as_str()))
    }
}

/// The names referenced inside the first `upto` children of node `n`
/// and, in turn, their descendants: each traversal's name and each called
/// function's name.
pub open spec fn names_in(t: SyntaxTree, src: Seq<char>, n: int, upto: int) -> Seq<Seq<char>>
    decreases t.size() - n, upto,
{
    if upto <= 0 || n < 0 || n >= t.size() || upto > t.kids(n).len() {
        seq![]
    } else {
        let prev = names_in(t, src, n, upto - 1);
        let c = t.kids(n)[upto - 1] as int;
        if !(n < c < t.size()) {
            prev
        } else {
            prev + own_name(t, src, c) + names_in(t, src, c, t.kids(c).len() as int)
        }
    }
}

/// The name node `c` itself references: a traversal's, or a called
/// function's.
pub open spec fn own_name(t: SyntaxTree, src: Seq<char>, c: int) -> Seq<Seq<char>> {
    if t.kind(c) == "variable_expr"@ {
        match traversal_name(t, src, c) {
            Some(x) => seq![x],
            None => seq![],
        }
    } else if t.kind(c) == "function_call"@ {
        match first_of_kind(t, t.kids(c), "identifier"@) {
            Some(i) => seq![t.text(src, i as int)],
            None => seq![],
        }
    } else {
        seq![]
    }
}

/// The names node `n`'s subtree references; see [`names_in`].
pub open spec fn subtree_names(t: SyntaxTree, src: Seq<char>, n: int) -> Seq<Seq<char>> {
    names_in(t, src, n, t.kids(n).len() as int)
}

fn collect_names(t: &SyntaxTree, src: &[char], n: usize, out: &mut Vec<String>)
    requires
        t.well_formed(),
        t.fits(src@.len()),
        n < t.size(),
    ensures
        string_views(final(out)@) == string_views(old(out)@) + subtree_names(*t, src@, n as int),
    decreases t.size() - n,
{
    let ghost start = string_views(out@);
    let kids = &t.nodes[n].children;
    assert(t.node_ok(n as int));
    let mut i: usize = 0;
    assert(start + names_in(*t, src@, n as int, 0) =~= start);
    while i < kids.len()
        invariant
            t.well_formed(),
            t.fits(src@.len()),
            n < t.size(),
            t.node_ok(n as int),
            kids@ == t.kids(n as int),
            i <= kids@.len(),
            string_views(out@) == start + names_in(*t, src@, n as int, i as int),
        decreases kids.len() - i,
    {
        let c = kids[i];
        assert(n < c < t.size());
        let ghost before = string_views(out@);
        if t.kind_is(c, "variable_expr") {
            match traversal(t, src, c) {
                Some(x) => {
                    out.push(x);
                },
                None => {},
            }
        } else if t.kind_is(c, "function_call") {
            match child_of_kind(t, c, "identifier") {
                Some(k) => {
                    let x = t.node_text(src, k);
                    out.push(x);
                },
                None => {},
            }
        }
        assert(string_views(out@) =~= before + own_name(*t, src@, c as int));
        let ghost mid = string_views(out@);
        collect_names(t, src, c, out);
        assert(names_in(*t, src@, n as int, i + 1) == names_in(*t, src@, n as int, i as int) + own_name(
            *t,
            src@,
            c as int,
        ) + subtree_names(*t, src@, c as int));
        assert(string_views(out@) =~= start + names_in(*t, src@, n as int, i + 1));
        i += 1;
    }
}

/// The names node `n`'s subtree references, as the extractor reports them.
fn referenced_names(t: &SyntaxTree, src: &[char], n: usize) -> (r: Vec<String>)
    requires
        t.well_formed(),
        t.fits(src@.len()),
        n < t.size(),
    ensures
        exists|names: Seq<String>| string_views(names) == subtree_names(*t, src@, n as int) && tidied(names, r@),
{
    let mut names: Vec<String> = Vec::new();
    collect_names(t, src, n, &mut names);
    assert(string_views(Seq::<String>::empty()) + subtree_names(*t, src@, n as int) =~= subtree_names(
        *t,
        src@,
        n as int,
    ));
    let ghost all = names@;
    let r = tidy_names(names);
    assert(string_views(all) == subtree_names(*t, src@, n as int) && tidied(all, r@));
    r
}

// ---------------------------------------------------------------------
// Symbols.
// ---------------------------------------------------------------------

/// A symbol to report: its name, its signature, and the node whose rows
/// it spans and whose subtree its references are read from.
pub type Candidate = (Seq<char>, Seq<char>, int);

/// One candidate per attribute among `kids` (the body of a `locals`
/// block), named `local.<attribute>`, with the attribute's text as its
/// signature.
pub open spec fn local_candidates(t: SyntaxTree, src: Seq<char>, kids: Seq<usize>) -> Seq<Candidate>
    decreases kids.len(),
{
    if kids.len() == 0 {
        seq![]
    } else {
        let prev = local_candidates(t, src, kids.drop_last());
        let a = kids.last() as int;
        if t.kind(a) == "attribute"@ {
            match first_of_kind(t, t.kids(a), "identifier"@) {
                Some(i) => prev.push(("local."@ + t.text(src, i as int), t.text(src, a), a)),
                None => prev,
            }
        } else {
            prev
        }
    }
}

/// The candidates top-level block `n` yields: one per attribute of a
/// `locals` block, one for a block of a type others refer to, else none.
pub open spec fn block_candidates(t: SyntaxTree, src: Seq<char>, n: int) -> Seq<Candidate> {
    match first_of_kind(t, t.kids(n), "identifier"@) {
        None => seq![],
        Some(i) => {
            let block_type = t.text(src, i as int);
            if block_type == "locals"@ {
                match first_of_kind(t, t.kids(n), "body"@) {
                    None => seq![],
                    Some(b) => local_candidates(t, src, t.kids(b as int)),
                }
            } else {
                match block_name(block_type, labels_in(t, src, t.kids(n))) {
                    Some(name) => seq![(name, block_signature(t, src, n, block_type), n)],
                    None => seq![],
                }
            }
        },
    }
}

/// The candidates of `defs`, in order.
pub open spec fn hcl_candidates(t: SyntaxTree, src: Seq<char>, defs: Seq<Definition>) -> Seq<Candidate>
    decreases defs.len(),
{
    if defs.len() == 0 {
        seq![]
    } else {
        hcl_candidates(t, src, defs.drop_last()) + block_candidates(t, src, defs.last().node as int)
    }
}

/// The candidates reported: all of them, or those spanning a changed row.
pub open spec fn kept(t: SyntaxTree, cands: Seq<Candidate>, all: bool, ranges: Seq<LineRange>) -> Seq<Candidate>
    decreases cands.len(),
{
    if cands.len() == 0 {
        seq![]
    } else {
        let prev = kept(t, cands.drop_last(), all, ranges);
        if all || spec_overlaps_any(t.line_range_of(cands.last().2), ranges) {
            prev.push(cands.last())
        } else {
            prev
        }
    }
}

/// `s` is the symbol candidate `c` is reported as.
pub open spec fn describes_candidate(t: SyntaxTree, src: Seq<char>, c: Candidate, s: ExtractedSymbol) -> bool {
    &&& s.id@ == Seq::<char>::empty()
    &&& s.name@ == c.0
    &&& s.kind == SymbolKind::Block
    &&& s.signature@ == c.1
    &&& s.range == t.line_range_of(c.2)
    &&& s.container is None
    &&& exists|names: Seq<String>| string_views(names) == subtree_names(t, src, c.2) && tidied(names, s.referenced_names@)
    &&& s.dependencies@.len() == 0
    &&& s.omitted_dependency_matches == 0
    &&& !s.is_test
    &&& s.classification is None
    &&& s.previous_signature is None
}

/// `r` are the symbols reported for `defs` (all of them, or those
/// spanning one of `ranges`), in order.
pub open spec fn hcl_reports(
    t: SyntaxTree,
    src: Seq<char>,
    defs: Seq<Definition>,
    all: bool,
    ranges: Seq<LineRange>,
    r: Seq<ExtractedSymbol>,
) -> bool {
    let cs = kept(t, hcl_candidates(t, src, defs), all, ranges);
    &&& r.len() == cs.len()
    &&& forall|i: int| 0 <= i < r.len() ==> describes_candidate(t, src, cs[i], #[trigger] r[i])
}

pub open spec fn cand_views(v: Seq<(String, String, usize)>) -> Seq<Candidate> {
    v.map_values(|x: (String, String, usize)| (x.0@, x.1@, x.2 as int))
}

pub open spec fn nodes_in(t: SyntaxTree, v: Seq<(String, String, usize)>) -> bool {
    forall|k: int| 0 <= k < v.len() ==> (#[trigger] v[k]).2 < t.size()
}

fn push_candidate(out: &mut Vec<(String, String, usize)>, c: (String, String, usize))
    ensures
        final(out)@ == old(out)@.push(c),
        cand_views(final(out)@) == cand_views(old(out)@).push((c.0@, c.1@, c.2 as int)),
{
    out.push(c);
    assert(cand_views(out@) =~= cand_views(old(out)@).push((c.0@, c.1@, c.2 as int)));
}

fn add_local_candidates(t: &SyntaxTree, src: &[char], b: usize, out: &mut Vec<(String, String, usize)>)
    requires
        t.well_formed(),
        t.fits(src@.len()),
        b < t.size(),
        nodes_in(*t, old(out)@),
    ensures
        cand_views(final(out)@) == cand_views(old(out)@) + local_candidates(*t, src@, t.kids(b as int)),
        nodes_in(*t, final(out)@),
{
    let ghost start = cand_views(out@);
    let kids = &t.nodes[b].children;
    assert(t.node_ok(b as int));
    let mut i: usize = 0;
    assert(kids@.take(0) =~= Seq::<usize>::empty());
    assert(start + local_candidates(*t, src@, kids@.take(0)) =~= start);
    while i < kids.len()
        invariant
            t.well_formed(),
            t.fits(src@.len()),
            b < t.size(),
            t.node_ok(b as int),
            kids@ == t.kids(b as int),
            i <= kids@.len(),
            nodes_in(*t, out@),
            cand_views(out@) == start + local_candidates(*t, src@, kids@.take(i as int)),
        decreases kids.len() - i,
    {
        assert(kids@.take(i + 1).drop_last() =~= kids@.take(i as int));
        assert(kids@.take(i + 1).last() == kids@[i as int]);
        let a = kids[i];
        if t.kind_is(a, "attribute") {
            match child_of_kind(t, a, "identifier") {
                Some(k) => {
                    let ident = t.node_text(src, k);
                    let name = concat("local.", ident.as_str());
                    let text = t.node_text(src, a);
                    let ghost before = cand_views(out@);
                    push_candidate(out, (name, text, a));
                    assert(cand_views(out@) =~= start + local_candidates(*t, src@, kids@.take(i + 1)));
                },
                None => {},
            }
        }
        i += 1;
    }
    assert(kids@.take(i as int) =~= kids@);
}

fn add_block_candidates(t: &SyntaxTree, src: &[char], n: usize, out: &mut Vec<(String, String, usize)>)
    requires
        t.well_formed(),
        t.fits(src@.len()),
        n < t.size(),
        nodes_in(*t, old(out)@),
    ensures
        cand_views(final(out)@) == cand_views(old(out)@) + block_candidates(*t, src@, n as int),
        nodes_in(*t, final(out)@),
{
    let ghost start = cand_views(out@);
    assert(start + Seq::<Candidate>::empty() =~= start);
    let block_type = match child_of_kind(t, n, "identifier") {
        Some(i) => t.node_text(src, i),
        None => return,
    };
    if str_eq(block_type.as_str(), "locals") {
        match child_of_kind(t, n, "body") {
            Some(b) => add_local_candidates(t, src, b, out),
            None => {},
        }
        return;
    }
    let labels = block_labels(t, src, n);
    match name_of_block(block_type.as_str(), &labels) {
        Some(name) => {
            let signature = signature_of_block(t, src, n, block_type.as_str());
            push_candidate(out, (name, signature, n));
            assert(cand_views(out@) =~= start + block_candidates(*t, src@, n as int));
        },
        None => {},
    }
}

fn candidates(t: &SyntaxTree, src: &[char], defs: &Vec<Definition>) -> (r: Vec<(String, String, usize)>)
    requires
        t.well_formed(),
        t.fits(src@.len()),
        defs_in(*t, defs@),
    ensures
        cand_views(r@) == hcl_candidates(*t, src@, defs@),
        nodes_in(*t, r@),
{
    let mut out: Vec<(String, String, usize)> = Vec::new();
    let mut i: usize = 0;
    assert(defs@.take(0) =~= Seq::<Definition>::empty());
    assert(cand_views(out@) =~= Seq::<Candidate>::empty());
    while i < defs.len()
        invariant
            t.well_formed(),
            t.fits(src@.len()),
            defs_in(*t, defs@),
            i <= defs@.len(),
            nodes_in(*t, out@),
            cand_views(out@) == hcl_candidates(*t, src@, defs@.take(i as int)),
        decreases defs.len() - i,
    {
        assert(defs@.take(i + 1).drop_last() =~= defs@.take(i as int));
        assert(defs@.take(i + 1).last() == defs@[i as int]);
        assert(defs@[i as int].node < t.size());
        add_block_candidates(t, src, defs[i].node, &mut out);
        i += 1;
    }
    assert(defs@.take(i as int) =~= defs@);
    out
}

fn report(t: &SyntaxTree, src: &[char], defs: &Vec<Definition>, all: bool, ranges: &[LineRange]) -> (r: Vec<
    ExtractedSymbol,
>)
    requires
        t.well_formed(),
        t.fits(src@.len()),
        defs_in(*t, defs@),
    ensures
        hcl_reports(*t, src@, defs@, all, ranges@, r@),
{
    let cands = candidates(t, src, defs);
    let ghost cs = cand_views(cands@);
    let mut out: Vec<ExtractedSymbol> = Vec::new();
    let mut i: usize = 0;
    assert(cs.take(0) =~= Seq::<Candidate>::empty());
    while i < cands.len()
        invariant
            t.well_formed(),
            t.fits(src@.len()),
            nodes_in(*t, cands@),
            cs == cand_views(cands@),
            i <= cands@.len(),
            out@.len() == kept(*t, cs.take(i as int), all, ranges@).len(),
            forall|k: int|
                0 <= k < out@.len() ==> describes_candidate(
                    *t,
                    src@,
                    kept(*t, cs.take(i as int), all, ranges@)[k],
                    #[trigger] out@[k],
                ),
        decreases cands.len() - i,
    {
        assert(cs.take(i + 1).drop_last() =~= cs.take(i as int));
        assert(cs.take(i + 1).last() == cs[i as int]);
        let c = &cands[i];
        assert(cs[i as int] == (c.0@, c.1@, c.2 as int));
        assert(c.2 < t.size());
        let range = t.line_range(c.2);
        if all || overlaps_any(range, ranges) {
            let referenced_names = referenced_names(t, src, c.2);
            let sym = ExtractedSymbol {
                id: String::new(),
                name: c.0.clone(),
                kind: SymbolKind::Block,
                signature: c.1.clone(),
                range,
                container: None,
                referenced_names,
                dependencies: Vec::new(),
                omitted_dependency_matches: 0,
                is_test: false,
                classification: None,
                previous_signature: None,
            };
            let ghost before = out@;
            out.push(sym);
            assert forall|k: int| 0 <= k < out@.len() implies describes_candidate(
                *t,
                src@,
                kept(*t, cs.take(i + 1), all, ranges@)[k],
                #[trigger] out@[k],
            ) by {
                if k < before.len() {
                    assert(out@[k] == before[k]);
                }
            }
        }
        i += 1;
    }
    assert(cs.take(i as int) =~= cs);
    out
}

/// The symbols of every top-level block of a parsed Terraform file; see
/// [`hcl_reports`].
pub fn extract_all_hcl_symbols(t: &SyntaxTree, src: &[char], defs: &Vec<Definition>) -> (r: Vec<ExtractedSymbol>)
    requires
        t.well_formed(),
        t.fits(src@.len()),
        defs_in(*t, defs@),
    ensures
        hcl_reports(*t, src@, defs@, true, seq![], r@),
{
    let none: Vec<LineRange> = Vec::new();
    report(t, src, defs, true, none.as_slice())
}

/// The symbols of a parsed Terraform file that span a changed row; see
/// [`hcl_reports`].
pub fn extract_changed_hcl_symbols(
    t: &SyntaxTree,
    src: &[char],
    defs: &Vec<Definition>,
    changed_ranges: &[LineRange],
) -> (r: Vec<ExtractedSymbol>)
    requires
        t.well_formed(),
        t.fits(src@.len()),
        defs_in(*t, defs@),
    ensures
        hcl_reports(*t, src@, defs@, false, changed_ranges@, r@),
{
    report(t, src, defs, false, changed_ranges)
}

} // verus!
