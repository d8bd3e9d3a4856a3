//! The symbols of a parsed file: which definitions are reported, and what
//! each is reported as (kind, name, signature, rows, container, the names
//! it references, whether it is a test).
use vstd::prelude::*;

use crate::diff::LineRange;
use crate::extract::signature::{slice_signature, spec_signature};
use crate::extract::{opt_view, overlaps_any, spec_overlaps_any, ExtractedSymbol, SymbolKind};
use crate::language::rust::{is_test_definition, spec_is_test_definition};
use crate::language::Language;
use crate::syntax::{
    container_label, is_container_kind, receiver_type_name, spec_container_label, spec_symbol_kind,
    symbol_kind, tidied, tidy_names, trim_leading_stars, has_view,
};
use crate::tree::SyntaxTree;

verus! {

/// A definition the language's definition query captured: its node, and
/// the names its reference query captured inside it, in match order.
#[derive(Debug, Clone)]
pub struct Definition {
    pub node: usize,
    pub references: Vec<String>,
}

/// The kind of definition `n`: from its node kind and, for a Go
/// `type_spec`, the kind of its `type` field.
pub open spec fn definition_kind(t: SyntaxTree, n: int) -> Option<SymbolKind> {
    spec_symbol_kind(
        t.kind(n),
        match t.field_child(n, "type"@) {
            Some(x) => Some(t.kind(x as int)),
            None => None,
        },
    )
}

/// Whether definition `n` makes a symbol: its kind is one that is
/// reported and it has a `name` field.
pub open spec fn makes_symbol(t: SyntaxTree, n: int) -> bool {
    definition_kind(t, n) is Some && t.field_child(n, "name"@) is Some
}

/// The nearest node enclosing `n` that is a container (an impl, a trait,
/// a class).
pub open spec fn nearest_container(t: SyntaxTree, n: int) -> Option<usize>
    decreases n,
{
    if 0 <= n < t.size() {
        match t.nodes@[n].parent {
            Some(p) => if p < n {
                if spec_container_label(t.kind(p as int), seq![]) is Some {
                    Some(p)
                } else {
                    nearest_container(t, p as int)
                }
            } else {
                None
            },
            None => None,
        }
    } else {
        None
    }
}

/// The first of `kids` that is a named `parameter_declaration`.
pub open spec fn first_parameter(t: SyntaxTree, kids: Seq<usize>) -> Option<usize>
    decreases kids.len(),
{
    if kids.len() == 0 {
        None
    } else if t.nodes@[kids[0] as int].named && t.kind(kids[0] as int) == "parameter_declaration"@ {
        Some(kids[0])
    } else {
        first_parameter(t, kids.skip(1))
    }
}

/// The container of definition `n`: for a Go method, its receiver's type
/// without pointer marks; otherwise the nearest enclosing impl, trait or
/// class, labelled `impl {type}`, `trait {name}` or `class {name}`.
pub open spec fn spec_container(t: SyntaxTree, src: Seq<char>, n: int) -> Option<Seq<char>> {
    if t.kind(n) == "method_declaration"@ {
        match t.field_child(n, "receiver"@) {
            Some(r) => match first_parameter(t, t.kids(r as int)) {
                Some(p) => match t.field_child(p as int, "type"@) {
                    Some(ty) => Some(trim_leading_stars(t.text(src, ty as int))),
                    None => None,
                },
                None => None,
            },
            None => None,
        }
    } else {
        match nearest_container(t, n) {
            Some(c) => {
                let by = if t.kind(c as int) == "impl_item"@ {
                    "type"@
                } else {
                    "name"@
                };
                match t.field_child(c as int, by) {
                    Some(x) => spec_container_label(t.kind(c as int), t.text(src, x as int)),
                    None => None,
                }
            },
            None => None,
        }
    }
}

/// `s` is what definition `d` of a `lang` file reports: the fields
/// resolution and classification fill later are empty.
pub open spec fn describes(t: SyntaxTree, src: Seq<char>, lang: Language, d: Definition, s: ExtractedSymbol) -> bool {
    let n = d.node as int;
    &&& s.id@ == Seq::<char>::empty()
    &&& Some(s.kind) == definition_kind(t, n)
    &&& match t.field_child(n, "name"@) {
        Some(x) => s.name@ == t.text(src, x as int),
        None => false,
    }
    &&& s.signature@ == spec_signature(t, src, n)
    &&& s.range == t.line_range_of(n)
    &&& opt_view(s.container) == spec_container(t, src, n)
    &&& tidied(d.references@, s.referenced_names@)
    &&& s.dependencies@.len() == 0
    &&& s.omitted_dependency_matches == 0
    &&& s.is_test == (lang == Language::Rust && spec_is_test_definition(t, src, n))
    &&& s.classification is None
    &&& s.previous_signature is None
}

/// The positions below `len` where `pred` holds, in order.
pub open spec fn positions_where(pred: spec_fn(int) -> bool, len: int) -> Seq<int>
    decreases len,
{
    if len <= 0 {
        seq![]
    } else {
        let before = positions_where(pred, len - 1);
        if pred(len - 1) {
            before.push(len - 1)
        } else {
            before
        }
    }
}

/// `r` holds, in order, what the definitions of `defs` at `positions`
/// report.
pub open spec fn reports(
    t: SyntaxTree,
    src: Seq<char>,
    lang: Language,
    defs: Seq<Definition>,
    positions: Seq<int>,
    r: Seq<ExtractedSymbol>,
) -> bool {
    &&& r.len() == positions.len()
    &&& forall|i: int| 0 <= i < r.len() ==> describes(t, src, lang, defs[positions[i]], #[trigger] r[i])
}

/// Whether definition `i` of `defs` makes a symbol.
pub open spec fn makes_symbol_at(t: SyntaxTree, defs: Seq<Definition>) -> spec_fn(int) -> bool {
    |i: int| makes_symbol(t, defs[i].node as int)
}

/// The definitions of `defs` that make a symbol.
pub open spec fn all_positions(t: SyntaxTree, defs: Seq<Definition>) -> Seq<int> {
    positions_where(makes_symbol_at(t, defs), defs.len() as int)
}

/// Whether definition `i` of `defs` spans a changed row.
pub open spec fn touched(t: SyntaxTree, defs: Seq<Definition>, ranges: Seq<LineRange>, i: int) -> bool {
    spec_overlaps_any(t.line_range_of(defs[i].node as int), ranges)
}

/// Whether another touched definition lies inside definition `i`.
pub open spec fn encloses_touched(t: SyntaxTree, defs: Seq<Definition>, ranges: Seq<LineRange>, i: int) -> bool {
    exists|j: int|
        0 <= j < defs.len() && touched(t, defs, ranges, j) && defs[j].node != defs[i].node
            && #[trigger] t.is_ancestor(defs[i].node as int, defs[j].node as int)
}

/// Whether a change reports definition `i` of `defs`: it is touched by a
/// changed row, encloses no other touched definition, and makes a symbol.
pub open spec fn reported_at(t: SyntaxTree, defs: Seq<Definition>, ranges: Seq<LineRange>) -> spec_fn(int) -> bool {
    |i: int|
        touched(t, defs, ranges, i) && !encloses_touched(t, defs, ranges, i) && makes_symbol(
            t,
            defs[i].node as int,
        )
}

/// The definitions a change reports; none where nothing changed.
pub open spec fn changed_positions(t: SyntaxTree, defs: Seq<Definition>, ranges: Seq<LineRange>) -> Seq<int> {
    if ranges.len() == 0 {
        seq![]
    } else {
        positions_where(reported_at(t, defs, ranges), defs.len() as int)
    }
}

/// The definitions all lie in the tree.
pub open spec fn defs_in(t: SyntaxTree, defs: Seq<Definition>) -> bool {
    forall|i: int| 0 <= i < defs.len() ==> (#[trigger] defs[i]).node < t.size()
}

/// Finds the kind of definition `n`; see [`definition_kind`].
fn find_definition_kind(t: &SyntaxTree, n: usize) -> (r: Option<SymbolKind>)
    requires
        t.well_formed(),
        n < t.size(),
    ensures
        r == definition_kind(*t, n as int),
{
    match t.child_by_field(n, "type") {
        Some(x) => symbol_kind(t.nodes[n].kind.as_str(), Some(t.nodes[x].kind.as_str())),
        None => symbol_kind(t.nodes[n].kind.as_str(), None),
    }
}

/// Finds the nearest container enclosing `n`; see [`nearest_container`].
fn find_nearest_container(t: &SyntaxTree, n: usize) -> (r: Option<usize>)
    requires
        t.well_formed(),
        n < t.size(),
    ensures
        r == nearest_container(*t, n as int),
        match r {
            Some(c) => c < t.size(),
            None => true,
        },
{
    let mut current = n;
    loop
        invariant
            t.well_formed(),
            current < t.size(),
            nearest_container(*t, n as int) == nearest_container(*t, current as int),
        decreases current,
    {
        assert(t.node_ok(current as int));
        match t.nodes[current].parent {
            Some(p) => {
                if is_container_kind(t.nodes[p].kind.as_str()) {
                    return Some(p);
                }
                current = p;
            },
            None => {
                return None;
            },
        }
    }
}

/// Finds the first named `parameter_declaration` among the children of
/// `r`; see [`first_parameter`].
fn find_first_parameter(t: &SyntaxTree, r: usize) -> (out: Option<usize>)
    requires
        t.well_formed(),
        r < t.size(),
    ensures
        out == first_parameter(*t, t.kids(r as int)),
        match out {
            Some(p) => p < t.size(),
            None => true,
        },
{
    let kids = &t.nodes[r].children;
    let mut k: usize = 0;
    assert(kids@.skip(0) =~= kids@);
    proof {
        assert(t.node_ok(r as int));
    }
    while k < kids.len()
        invariant
            t.well_formed(),
            r < t.size(),
            t.node_ok(r as int),
            kids@ == t.kids(r as int),
            k <= kids@.len(),
            first_parameter(*t, kids@) == first_parameter(*t, kids@.skip(k as int)),
        decreases kids.len() - k,
    {
        let c = kids[k];
        assert(kids@.skip(k as int)[0] == c);
        assert(kids@.skip(k as int).skip(1) =~= kids@.skip(k + 1));
        assert(t.nodes@[r as int].children@[k as int] == c);
        if t.nodes[c].named && t.kind_is(c, "parameter_declaration") {
            return Some(c);
        }
        k += 1;
    }
    assert(kids@.skip(k as int) =~= Seq::<usize>::empty());
    None
}

/// Finds the container of definition `n`; see [`spec_container`].
pub fn find_container(t: &SyntaxTree, src: &[char], n: usize) -> (r: Option<String>)
    requires
        t.well_formed(),
        t.fits(src@.len()),
        n < t.size(),
    ensures
        opt_view(r) == spec_container(*t, src@, n as int),
{
    if t.kind_is(n, "method_declaration") {
        let receiver = match t.child_by_field(n, "receiver") {
            Some(x) => x,
            None => {
                return None;
            },
        };
        let param = match find_first_parameter(t, receiver) {
            Some(p) => p,
            None => {
                return None;
            },
        };
        return match t.child_by_field(param, "type") {
            Some(ty) => {
                let text = t.node_text(src, ty);
                Some(receiver_type_name(text.as_str()))
            },
            None => None,
        };
    }
    match find_nearest_container(t, n) {
        Some(c) => {
            let named = if t.kind_is(c, "impl_item") {
                t.child_by_field(c, "type")
            } else {
                t.child_by_field(c, "name")
            };
            match named {
                Some(x) => {
                    let text = t.node_text(src, x);
                    container_label(t.nodes[c].kind.as_str(), text.as_str())
                },
                None => None,
            }
        },
        None => None,
    }
}

/// A copy of `v`.
fn copy_strings(v: &Vec<String>) -> (r: Vec<String>)
    ensures
        r@.len() == v@.len(),
        forall|i: int| 0 <= i < v@.len() ==> (#[trigger] r@[i])@ == v@[i]@,
{
    let mut r: Vec<String> = Vec::new();
    let mut i: usize = 0;
    while i < v.len()
        invariant
            i <= v@.len(),
            r@.len() == i,
            forall|j: int| 0 <= j < i ==> (#[trigger] r@[j])@ == v@[j]@,
        decreases v.len() - i,
    {
        r.push(v[i].clone());
        i += 1;
    }
    r
}

/// Names that read the same tidy to the same names.
proof fn lemma_tidied_same_views(a: Seq<String>, b: Seq<String>, r: Seq<String>)
    requires
        a.len() == b.len(),
        forall|i: int| 0 <= i < a.len() ==> (#[trigger] a[i])@ == b[i]@,
        tidied(b, r),
    ensures
        tidied(a, r),
{
    assert forall|i: int| 0 <= i < r.len() implies (#[trigger] r[i])@.len() > 1 && has_view(a, r[i]@) by {
        let j = choose|j: int| 0 <= j < b.len() && #[trigger] b[j]@ == r[i]@;
        assert(a[j]@ == b[j]@);
    }
    assert forall|j: int| 0 <= j < a.len() && (#[trigger] a[j])@.len() > 1 implies has_view(r, a[j]@) by {
        assert(a[j]@ == b[j]@);
        assert(b[j]@.len() > 1);
    }
}

/// Builds what definition `d` of a `lang` file reports, where it makes a
/// symbol; see [`describes`].
pub fn build_symbol(t: &SyntaxTree, src: &[char], d: &Definition, lang: Language) -> (r: Option<ExtractedSymbol>)
    requires
        t.well_formed(),
        t.fits(src@.len()),
        d.node < t.size(),
    ensures
        match r {
            Some(s) => makes_symbol(*t, d.node as int) && describes(*t, src@, lang, *d, s),
            None => !makes_symbol(*t, d.node as int),
        },
{
    let n = d.node;
    let kind = match find_definition_kind(t, n) {
        Some(k) => k,
        None => {
            return None;
        },
    };
    let name_node = match t.child_by_field(n, "name") {
        Some(x) => x,
        None => {
            return None;
        },
    };
    let name = t.node_text(src, name_node);
    let signature = slice_signature(t, src, n);
    let range = t.line_range(n);
    let container = find_container(t, src, n);
    let copied = copy_strings(&d.references);
    let referenced_names = tidy_names(copied);
    proof {
        lemma_tidied_same_views(d.references@, copied@, referenced_names@);
    }
    let is_test = match lang {
        Language::Rust => is_test_definition(t, src, n),
        _ => false,
    };
    Some(
        ExtractedSymbol {
            id: String::new(),
            name,
            kind,
            signature,
            range,
            container,
            referenced_names,
            dependencies: Vec::new(),
            omitted_dependency_matches: 0,
            is_test,
            classification: None,
            previous_signature: None,
        },
    )
}

/// Reporting one more definition extends the report by its symbol.
proof fn lemma_reports_push(
    t: SyntaxTree,
    src: Seq<char>,
    lang: Language,
    defs: Seq<Definition>,
    positions: Seq<int>,
    r: Seq<ExtractedSymbol>,
    i: int,
    s: ExtractedSymbol,
)
    requires
        reports(t, src, lang, defs, positions, r),
        describes(t, src, lang, defs[i], s),
    ensures
        reports(t, src, lang, defs, positions.push(i), r.push(s)),
{
    assert forall|k: int| 0 <= k < r.push(s).len() implies describes(
        t,
        src,
        lang,
        defs[positions.push(i)[k]],
        #[trigger] r.push(s)[k],
    ) by {
        if k < r.len() {
            assert(r.push(s)[k] == r[k]);
            assert(positions.push(i)[k] == positions[k]);
        }
    }
}

/// Every definition's symbol, nested ones included: what a repository-wide
/// index of definitions holds.
pub fn extract_all_symbols(t: &SyntaxTree, src: &[char], defs: &Vec<Definition>, lang: Language) -> (r: Vec<
    ExtractedSymbol,
>)
    requires
        t.well_formed(),
        t.fits(src@.len()),
        defs_in(*t, defs@),
    ensures
        reports(*t, src@, lang, defs@, all_positions(*t, defs@), r@),
{
    let mut out: Vec<ExtractedSymbol> = Vec::new();
    let mut i: usize = 0;
    while i < defs.len()
        invariant
            t.well_formed(),
            t.fits(src@.len()),
            defs_in(*t, defs@),
            i <= defs@.len(),
            reports(*t, src@, lang, defs@, positions_where(makes_symbol_at(*t, defs@), i as int), out@),
        decreases defs.len() - i,
    {
        assert(defs@[i as int].node < t.size());
        match build_symbol(t, src, &defs[i], lang) {
            Some(s) => {
                proof {
                    lemma_reports_push(
                        *t,
                        src@,
                        lang,
                        defs@,
                        positions_where(makes_symbol_at(*t, defs@), i as int),
                        out@,
                        i as int,
                        s,
                    );
                }
                out.push(s);
            },
            None => {},
        }
        i += 1;
    }
    out
}

/// Finds whether another touched definition lies inside definition `i`;
/// see [`encloses_touched`].
fn find_enclosed(t: &SyntaxTree, defs: &Vec<Definition>, touched_at: &Vec<bool>, i: usize, Ghost(ranges): Ghost<Seq<LineRange>>) -> (r: bool)
    requires
        t.well_formed(),
        defs_in(*t, defs@),
        i < defs@.len(),
        touched_at@.len() == defs@.len(),
        forall|j: int| 0 <= j < defs@.len() ==> #[trigger] touched_at@[j] == touched(*t, defs@, ranges, j),
    ensures
        r == encloses_touched(*t, defs@, ranges, i as int),
{
    let mut j: usize = 0;
    while j < defs.len()
        invariant
            t.well_formed(),
            defs_in(*t, defs@),
            i < defs@.len(),
            touched_at@.len() == defs@.len(),
            forall|q: int| 0 <= q < defs@.len() ==> #[trigger] touched_at@[q] == touched(*t, defs@, ranges, q),
            j <= defs@.len(),
            forall|q: int|
                0 <= q < j ==> !(touched(*t, defs@, ranges, q) && defs@[q].node != defs@[i as int].node
                    && #[trigger] t.is_ancestor(defs@[i as int].node as int, defs@[q].node as int)),
        decreases defs.len() - j,
    {
        assert(defs@[j as int].node < t.size());
        if touched_at[j] && defs[j].node != defs[i].node && t.is_descendant_of(defs[j].node, defs[i].node) {
            return true;
        }
        j += 1;
    }
    false
}

/// The symbols a change to the rows `changed_ranges` reports: each
/// definition spanning a changed row, except one that encloses another
/// such definition, so that only the narrowest is reported.
pub fn extract_changed_symbols(
    t: &SyntaxTree,
    src: &[char],
    defs: &Vec<Definition>,
    lang: Language,
    changed_ranges: &[LineRange],
) -> (r: Vec<ExtractedSymbol>)
    requires
        t.well_formed(),
        t.fits(src@.len()),
        defs_in(*t, defs@),
    ensures
        reports(*t, src@, lang, defs@, changed_positions(*t, defs@, changed_ranges@), r@),
{
    let mut out: Vec<ExtractedSymbol> = Vec::new();
    if changed_ranges.len() == 0 {
        return out;
    }
    let ghost ranges = changed_ranges@;
    let mut touched_at: Vec<bool> = Vec::new();
    let mut k: usize = 0;
    while k < defs.len()
        invariant
            t.well_formed(),
            defs_in(*t, defs@),
            ranges == changed_ranges@,
            k <= defs@.len(),
            touched_at@.len() == k,
            forall|j: int| 0 <= j < k ==> #[trigger] touched_at@[j] == touched(*t, defs@, ranges, j),
        decreases defs.len() - k,
    {
        assert(defs@[k as int].node < t.size());
        let range = t.line_range(defs[k].node);
        touched_at.push(overlaps_any(range, changed_ranges));
        k += 1;
    }
    let mut i: usize = 0;
    while i < defs.len()
        invariant
            t.well_formed(),
            t.fits(src@.len()),
            defs_in(*t, defs@),
            ranges == changed_ranges@,
            ranges.len() > 0,
            touched_at@.len() == defs@.len(),
            forall|j: int| 0 <= j < defs@.len() ==> #[trigger] touched_at@[j] == touched(*t, defs@, ranges, j),
            i <= defs@.len(),
            reports(*t, src@, lang, defs@, positions_where(reported_at(*t, defs@, ranges), i as int), out@),
        decreases defs.len() - i,
    {
        assert(defs@[i as int].node < t.size());
        if touched_at[i] && !find_enclosed(t, defs, &touched_at, i, Ghost(ranges)) {
            match build_symbol(t, src, &defs[i], lang) {
                Some(s) => {
                    proof {
                        lemma_reports_push(
                            *t,
                            src@,
                            lang,
                            defs@,
                            positions_where(reported_at(*t, defs@, ranges), i as int),
                            out@,
                            i as int,
                            s,
                        );
                    }
                    out.push(s);
                },
                None => {},
            }
        }
        i += 1;
    }
    out
}

/// The positions where `pred` holds are exactly those below `len` where
/// it holds.
pub proof fn lemma_positions_where(pred: spec_fn(int) -> bool, len: int)
    ensures
        forall|k: int|
            0 <= k < positions_where(pred, len).len() ==> 0 <= #[trigger] positions_where(pred, len)[k]
                < len && pred(positions_where(pred, len)[k]),
        forall|i: int| 0 <= i < len && pred(i) ==> #[trigger] positions_where(pred, len).contains(i),
    decreases len,
{
    if len > 0 {
        lemma_positions_where(pred, len - 1);
        let before = positions_where(pred, len - 1);
        if pred(len - 1) {
            assert(before.push(len - 1)[before.len() as int] == len - 1);
            assert forall|i: int| 0 <= i < len && pred(i) implies #[trigger] before.push(len - 1).contains(i) by {
                if i < len - 1 {
                    assert(before.contains(i));
                    let k = choose|k: int| 0 <= k < before.len() && before[k] == i;
                    assert(before.push(len - 1)[k] == i);
                }
            }
            assert forall|k: int| 0 <= k < before.push(len - 1).len() implies 0 <= #[trigger] before.push(len - 1)[k]
                < len && pred(before.push(len - 1)[k]) by {
                if k < before.len() {
                    assert(before.push(len - 1)[k] == before[k]);
                }
            }
        }
    }
}

/// Every symbol a change reports is among the file's symbols: what
/// [`extract_changed_symbols`] reports for any changed rows is a part of
/// what [`extract_all_symbols`] reports for the same definitions.
pub proof fn law_changed_symbols_are_among_all_symbols(
    t: SyntaxTree,
    defs: Seq<Definition>,
    ranges: Seq<LineRange>,
)
    ensures
        forall|k: int|
            0 <= k < changed_positions(t, defs, ranges).len() ==> all_positions(t, defs).contains(
                #[trigger] changed_positions(t, defs, ranges)[k],
            ),
{
    if ranges.len() > 0 {
        lemma_positions_where(reported_at(t, defs, ranges), defs.len() as int);
        lemma_positions_where(makes_symbol_at(t, defs), defs.len() as int);
        assert forall|k: int| 0 <= k < changed_positions(t, defs, ranges).len() implies all_positions(
            t,
            defs,
        ).contains(#[trigger] changed_positions(t, defs, ranges)[k]) by {
            let i = changed_positions(t, defs, ranges)[k];
            assert(reported_at(t, defs, ranges)(i));
            assert(makes_symbol_at(t, defs)(i));
        }
    }
}

/// A change reports the narrowest touched definitions: no symbol it
/// reports comes from a definition enclosing that of another it reports.
pub proof fn law_changed_symbols_are_narrowest(t: SyntaxTree, defs: Seq<Definition>, ranges: Seq<LineRange>)
    ensures
        forall|a: int, b: int|
            0 <= a < changed_positions(t, defs, ranges).len() && 0 <= b < changed_positions(
                t,
                defs,
                ranges,
            ).len() ==> !t.is_ancestor(
                defs[#[trigger] changed_positions(t, defs, ranges)[a]].node as int,
                defs[#[trigger] changed_positions(t, defs, ranges)[b]].node as int,
            ),
{
    if ranges.len() > 0 {
        lemma_positions_where(reported_at(t, defs, ranges), defs.len() as int);
        assert forall|a: int, b: int|
            0 <= a < changed_positions(t, defs, ranges).len() && 0 <= b < changed_positions(
                t,
                defs,
                ranges,
            ).len() implies !t.is_ancestor(
            defs[#[trigger] changed_positions(t, defs, ranges)[a]].node as int,
            defs[#[trigger] changed_positions(t, defs, ranges)[b]].node as int,
        ) by {
            let i = changed_positions(t, defs, ranges)[a];
            let j = changed_positions(t, defs, ranges)[b];
            assert(reported_at(t, defs, ranges)(i));
            assert(reported_at(t, defs, ranges)(j));
            if t.is_ancestor(defs[i].node as int, defs[j].node as int) {
                lemma_ancestor_is_other(t, defs[i].node as int, defs[j].node as int);
                assert(touched(t, defs, ranges, j));
            }
        }
    }
}

/// A node does not enclose itself.
proof fn lemma_ancestor_is_other(t: SyntaxTree, a: int, n: int)
    requires
        t.is_ancestor(a, n),
    ensures
        a < n,
    decreases n,
{
    match t.nodes@[n].parent {
        Some(p) => {
            if p != a {
                lemma_ancestor_is_other(t, a, p as int);
            }
        },
        None => {},
    }
}

} // verus!
