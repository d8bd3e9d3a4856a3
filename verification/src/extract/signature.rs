//! A definition's signature: its text with bodies and comments cut out and
//! whitespace collapsed.
use vstd::prelude::*;

use crate::extract::{join_spaced, normalize_whitespace, words};
use crate::syntax::{body_place, cuts_within, spec_body_place, spec_text_without, text_without, BodyPlace, Cut};
use crate::tree::SyntaxTree;

verus! {

/// Whether a node kind is a comment under any supported grammar.
pub open spec fn is_comment(kind: Seq<char>) -> bool {
    kind == "line_comment"@ || kind == "block_comment"@ || kind == "comment"@
}

/// The cut a class member `c` contributes: a method's body, or the body of
/// an arrow function a class field holds, up to the member's end.
pub open spec fn member_body_cut(t: SyntaxTree, c: int) -> Option<Cut> {
    let k = t.kind(c);
    let method_body = if k == "function_definition"@ || k == "method_definition"@ {
        t.field_child(c, "body"@)
    } else {
        None
    };
    let field_body = if k == "public_field_definition"@ {
        match t.field_child(c, "value"@) {
            Some(v) => if t.kind(v as int) == "arrow_function"@ {
                t.field_child(v as int, "body"@)
            } else {
                None
            },
            None => None,
        }
    } else {
        None
    };
    match method_body {
        Some(b) => Some(Cut { start: t.nodes@[b as int].start, end: t.nodes@[c].end }),
        None => match field_body {
            Some(b) => Some(Cut { start: t.nodes@[b as int].start, end: t.nodes@[c].end }),
            None => None,
        },
    }
}

/// The member bodies inside node `n`, in source order, not looking inside
/// a body once cut.
pub open spec fn body_cuts(t: SyntaxTree, n: int) -> Seq<Cut>
    decreases t.size() - n, t.kids(n).len() + 1,
{
    if 0 <= n < t.size() {
        body_cuts_from(t, n, 0)
    } else {
        seq![]
    }
}

/// The member bodies inside node `n`'s children from the `k`-th on.
pub open spec fn body_cuts_from(t: SyntaxTree, n: int, k: int) -> Seq<Cut>
    decreases t.size() - n, t.kids(n).len() - k,
{
    if 0 <= n < t.size() && 0 <= k < t.kids(n).len() {
        let c = t.kids(n)[k] as int;
        let here = match member_body_cut(t, c) {
            Some(cut) => seq![cut],
            None => if n < c < t.size() {
                body_cuts(t, c)
            } else {
                seq![]
            },
        };
        here + body_cuts_from(t, n, k + 1)
    } else {
        seq![]
    }
}

/// Whether some cut of `cuts` covers `start..end`.
pub open spec fn covered(cuts: Seq<Cut>, start: usize, end: usize) -> bool {
    exists|i: int| 0 <= i < cuts.len() && (#[trigger] cuts[i]).start <= start && end <= cuts[i].end
}

/// The comments inside node `n`, in source order, passing over what a cut
/// of `already` covers.
pub open spec fn comment_cuts(t: SyntaxTree, n: int, already: Seq<Cut>) -> Seq<Cut>
    decreases t.size() - n, t.kids(n).len() + 1,
{
    if 0 <= n < t.size() {
        if is_comment(t.kind(n)) {
            seq![Cut { start: t.nodes@[n].start, end: t.nodes@[n].end }]
        } else if covered(already, t.nodes@[n].start, t.nodes@[n].end) {
            seq![]
        } else {
            comment_cuts_from(t, n, already, 0)
        }
    } else {
        seq![]
    }
}

/// The comments inside node `n`'s children from the `k`-th on.
pub open spec fn comment_cuts_from(t: SyntaxTree, n: int, already: Seq<Cut>, k: int) -> Seq<Cut>
    decreases t.size() - n, t.kids(n).len() - k,
{
    if 0 <= n < t.size() && 0 <= k < t.kids(n).len() {
        let c = t.kids(n)[k] as int;
        let here = if n < c < t.size() {
            comment_cuts(t, c, already)
        } else {
            seq![]
        };
        here + comment_cuts_from(t, n, already, k + 1)
    } else {
        seq![]
    }
}

/// The cuts of `cuts` that start before `bound`, in order.
pub open spec fn starting_before(cuts: Seq<Cut>, bound: usize) -> Seq<Cut>
    decreases cuts.len(),
{
    if cuts.len() == 0 {
        seq![]
    } else {
        let rest = starting_before(cuts.skip(1), bound);
        if cuts[0].start < bound {
            seq![cuts[0]] + rest
        } else {
            rest
        }
    }
}

/// The body of definition `n`, where its kind has one.
pub open spec fn body_of(t: SyntaxTree, n: int) -> Option<usize> {
    match spec_body_place(t.kind(n)) {
        BodyPlace::ValueBodyField => match t.field_child(n, "value"@) {
            Some(v) => t.field_child(v as int, "body"@),
            None => None,
        },
        BodyPlace::BodyField => t.field_child(n, "body"@),
        _ => None,
    }
}

/// What a signature leaves out of definition `n`'s text. A class keeps
/// its members with their bodies cut; another definition keeps its text
/// up to its body, if it has one. Comments are cut in either case.
pub open spec fn signature_cuts(t: SyntaxTree, n: int) -> Seq<Cut> {
    if spec_body_place(t.kind(n)) == BodyPlace::ClassMembers {
        let members = body_cuts(t, n);
        members + comment_cuts(t, n, members)
    } else {
        let end = t.nodes@[n].end;
        match body_of(t, n) {
            Some(b) => {
                let body_start = t.nodes@[b as int].start;
                starting_before(comment_cuts(t, n, seq![]), body_start).push(
                    Cut { start: body_start, end },
                )
            },
            None => starting_before(comment_cuts(t, n, seq![]), end),
        }
    }
}

/// Finds the cut a class member contributes; see [`member_body_cut`].
fn member_body(t: &SyntaxTree, c: usize) -> (r: Option<Cut>)
    requires
        t.well_formed(),
        c < t.size(),
    ensures
        r == member_body_cut(*t, c as int),
{
    let method_body = if t.kind_is(c, "function_definition") || t.kind_is(c, "method_definition") {
        t.child_by_field(c, "body")
    } else {
        None
    };
    if let Some(b) = method_body {
        return Some(Cut { start: t.nodes[b].start, end: t.nodes[c].end });
    }
    if t.kind_is(c, "public_field_definition") {
        if let Some(v) = t.child_by_field(c, "value") {
            if t.kind_is(v, "arrow_function") {
                if let Some(b) = t.child_by_field(v, "body") {
                    return Some(Cut { start: t.nodes[b].start, end: t.nodes[c].end });
                }
            }
        }
    }
    None
}

/// Appends the member bodies inside node `n` to `cuts`; see
/// [`body_cuts`].
fn collect_body_cuts(t: &SyntaxTree, n: usize, cuts: &mut Vec<Cut>)
    requires
        t.well_formed(),
        n < t.size(),
    ensures
        final(cuts)@ == old(cuts)@ + body_cuts(*t, n as int),
    decreases t.size() - n,
{
    let ghost before = cuts@;
    let count = t.nodes[n].children.len();
    let mut k: usize = 0;
    assert(cuts@ + body_cuts_from(*t, n as int, 0) =~= before + body_cuts(*t, n as int));
    while k < count
        invariant
            t.well_formed(),
            n < t.size(),
            count == t.kids(n as int).len(),
            k <= count,
            cuts@ + body_cuts_from(*t, n as int, k as int) == before + body_cuts(*t, n as int),
        decreases count - k,
    {
        let c = t.nodes[n].children[k];
        assert(t.node_ok(n as int));
        assert(t.nodes@[n as int].children@[k as int] == c);
        let ghost rest = body_cuts_from(*t, n as int, k + 1);
        match member_body(t, c) {
            Some(cut) => {
                assert(body_cuts_from(*t, n as int, k as int) == seq![cut] + rest);
                cuts.push(cut);
                assert(cuts@ + rest =~= before + body_cuts(*t, n as int));
            },
            None => {
                let ghost mid = cuts@;
                assert(body_cuts_from(*t, n as int, k as int) == body_cuts(*t, c as int) + rest);
                collect_body_cuts(t, c, cuts);
                assert(cuts@ + rest =~= mid + (body_cuts(*t, c as int) + rest));
            },
        }
        k += 1;
    }
}

/// Whether some cut of `cuts` covers `start..end`.
fn is_covered(cuts: &Vec<Cut>, start: usize, end: usize) -> (r: bool)
    ensures
        r == covered(cuts@, start, end),
{
    let mut i: usize = 0;
    while i < cuts.len()
        invariant
            i <= cuts@.len(),
            forall|j: int| 0 <= j < i ==> !((#[trigger] cuts@[j]).start <= start && end <= cuts@[j].end),
        decreases cuts.len() - i,
    {
        if cuts[i].start <= start && end <= cuts[i].end {
            return true;
        }
        i += 1;
    }
    false
}

/// Appends the comments inside node `n` to `cuts`, passing over what
/// `already` covers; see [`comment_cuts`].
fn collect_comment_cuts(t: &SyntaxTree, n: usize, already: &Vec<Cut>, cuts: &mut Vec<Cut>)
    requires
        t.well_formed(),
        n < t.size(),
    ensures
        final(cuts)@ == old(cuts)@ + comment_cuts(*t, n as int, already@),
    decreases t.size() - n,
{
    let node = &t.nodes[n];
    if t.kind_is(n, "line_comment") || t.kind_is(n, "block_comment") || t.kind_is(n, "comment") {
        cuts.push(Cut { start: node.start, end: node.end });
        return;
    }
    if is_covered(already, node.start, node.end) {
        return;
    }
    let ghost before = cuts@;
    let count = node.children.len();
    let mut k: usize = 0;
    assert(cuts@ + comment_cuts_from(*t, n as int, already@, 0) =~= before + comment_cuts(
        *t,
        n as int,
        already@,
    ));
    while k < count
        invariant
            t.well_formed(),
            n < t.size(),
            node == t.nodes@[n as int],
            count == t.kids(n as int).len(),
            k <= count,
            cuts@ + comment_cuts_from(*t, n as int, already@, k as int) == before + comment_cuts(
                *t,
                n as int,
                already@,
            ),
        decreases count - k,
    {
        let c = node.children[k];
        assert(t.node_ok(n as int));
        assert(t.nodes@[n as int].children@[k as int] == c);
        let ghost rest = comment_cuts_from(*t, n as int, already@, k + 1);
        let ghost mid = cuts@;
        assert(comment_cuts_from(*t, n as int, already@, k as int) == comment_cuts(*t, c as int, already@) + rest);
        collect_comment_cuts(t, c, already, cuts);
        assert(cuts@ + rest =~= mid + (comment_cuts(*t, c as int, already@) + rest));
        k += 1;
    }
}

/// The cuts of `cuts` that start before `bound`; see [`starting_before`].
fn keep_starting_before(cuts: Vec<Cut>, bound: usize) -> (r: Vec<Cut>)
    ensures
        r@ == starting_before(cuts@, bound),
{
    let mut out: Vec<Cut> = Vec::new();
    let mut i: usize = 0;
    assert(cuts@.skip(0) =~= cuts@);
    while i < cuts.len()
        invariant
            i <= cuts@.len(),
            out@ + starting_before(cuts@.skip(i as int), bound) == starting_before(cuts@, bound),
        decreases cuts.len() - i,
    {
        let ghost rest = cuts@.skip(i as int);
        assert(rest[0] == cuts@[i as int]);
        assert(rest.skip(1) =~= cuts@.skip(i + 1));
        if cuts[i].start < bound {
            let ghost o = out@;
            out.push(cuts[i]);
            assert(out@ + starting_before(cuts@.skip(i + 1), bound) =~= o + (seq![cuts@[i as int]]
                + starting_before(cuts@.skip(i + 1), bound)));
        }
        i += 1;
    }
    assert(cuts@.skip(i as int) =~= Seq::<Cut>::empty());
    assert(out@ + starting_before(Seq::<Cut>::empty(), bound) =~= out@);
    out
}

/// Finds the body of definition `n`; see [`body_of`].
fn find_body(t: &SyntaxTree, n: usize) -> (r: Option<usize>)
    requires
        t.well_formed(),
        n < t.size(),
    ensures
        r == body_of(*t, n as int),
        match r {
            Some(b) => b < t.size(),
            None => true,
        },
{
    match body_place(t.nodes[n].kind.as_str()) {
        BodyPlace::ValueBodyField => match t.child_by_field(n, "value") {
            Some(v) => t.child_by_field(v, "body"),
            None => None,
        },
        BodyPlace::BodyField => t.child_by_field(n, "body"),
        _ => None,
    }
}

/// The cuts a signature makes in definition `n`; see [`signature_cuts`].
fn find_signature_cuts(t: &SyntaxTree, n: usize) -> (r: Vec<Cut>)
    requires
        t.well_formed(),
        n < t.size(),
    ensures
        r@ == signature_cuts(*t, n as int),
{
    if body_place(t.nodes[n].kind.as_str()) == BodyPlace::ClassMembers {
        let mut members: Vec<Cut> = Vec::new();
        collect_body_cuts(t, n, &mut members);
        assert(members@ =~= body_cuts(*t, n as int));
        let mut cuts = members.clone();
        collect_comment_cuts(t, n, &members, &mut cuts);
        cuts
    } else {
        let end = t.nodes[n].end;
        let mut comments: Vec<Cut> = Vec::new();
        let none: Vec<Cut> = Vec::new();
        collect_comment_cuts(t, n, &none, &mut comments);
        assert(none@ =~= seq![]);
        assert(comments@ =~= comment_cuts(*t, n as int, seq![]));
        match find_body(t, n) {
            Some(b) => {
                let body_start = t.nodes[b].start;
                let mut kept = keep_starting_before(comments, body_start);
                kept.push(Cut { start: body_start, end });
                kept
            },
            None => keep_starting_before(comments, end),
        }
    }
}

/// The signature of definition `n` in `src`: its text without the cuts of
/// [`signature_cuts`], whitespace collapsed to single spaces.
pub open spec fn spec_signature(t: SyntaxTree, src: Seq<char>, n: int) -> Seq<char> {
    join_spaced(
        words(
            spec_text_without(
                src,
                t.nodes@[n].start as int,
                t.nodes@[n].end as int,
                signature_cuts(t, n),
            ),
        ),
    )
}

/// Cuts inside a span stay inside a wider one.
proof fn lemma_cuts_within_widen(cuts: Seq<Cut>, a: int, b: int, c: int, d: int)
    requires
        cuts_within(cuts, a, b),
        c <= a,
        b <= d,
    ensures
        cuts_within(cuts, c, d),
{
}

/// Cuts inside a span, joined, stay inside it.
proof fn lemma_cuts_within_add(x: Seq<Cut>, y: Seq<Cut>, a: int, b: int)
    requires
        cuts_within(x, a, b),
        cuts_within(y, a, b),
    ensures
        cuts_within(x + y, a, b),
{
    assert forall|i: int| 0 <= i < (x + y).len() implies a <= (#[trigger] (x + y)[i]).start <= (x
        + y)[i].end && (x + y)[i].end <= b by {
        if i < x.len() {
            assert((x + y)[i] == x[i]);
        } else {
            assert((x + y)[i] == y[i - x.len()]);
        }
    }
}

/// The cut a class member contributes lies inside the member.
proof fn lemma_member_body_cut_inside(t: SyntaxTree, c: int)
    requires
        t.well_formed(),
        0 <= c < t.size(),
    ensures
        match member_body_cut(t, c) {
            Some(cut) => t.nodes@[c].start <= cut.start <= cut.end <= t.nodes@[c].end,
            None => true,
        },
{
    t.lemma_field_child_inside(c, "body"@);
    t.lemma_field_child_inside(c, "value"@);
    match t.field_child(c, "body"@) {
        Some(b) => {
            assert(t.node_ok(b as int));
        },
        None => {},
    }
    match t.field_child(c, "value"@) {
        Some(v) => {
            t.lemma_field_child_inside(v as int, "body"@);
            match t.field_child(v as int, "body"@) {
                Some(b) => {
                    assert(t.node_ok(b as int));
                },
                None => {},
            }
        },
        None => {},
    }
}

/// The member bodies inside a node lie inside it.
proof fn lemma_body_cuts_inside(t: SyntaxTree, n: int)
    requires
        t.well_formed(),
        0 <= n < t.size(),
    ensures
        cuts_within(body_cuts(t, n), t.nodes@[n].start as int, t.nodes@[n].end as int),
    decreases t.size() - n, t.kids(n).len() + 1,
{
    lemma_body_cuts_from_inside(t, n, 0);
}

/// The member bodies inside a node's children from the `k`-th on lie
/// inside the node.
proof fn lemma_body_cuts_from_inside(t: SyntaxTree, n: int, k: int)
    requires
        t.well_formed(),
        0 <= n < t.size(),
        0 <= k,
    ensures
        cuts_within(body_cuts_from(t, n, k), t.nodes@[n].start as int, t.nodes@[n].end as int),
    decreases t.size() - n, t.kids(n).len() - k,
{
    if k < t.kids(n).len() {
        let c = t.kids(n)[k] as int;
        assert(t.node_ok(n));
        assert(t.nodes@[n].children@[k] == c);
        let lo = t.nodes@[n].start as int;
        let hi = t.nodes@[n].end as int;
        let here = match member_body_cut(t, c) {
            Some(cut) => seq![cut],
            None => body_cuts(t, c),
        };
        lemma_member_body_cut_inside(t, c);
        match member_body_cut(t, c) {
            Some(cut) => {
                assert(cuts_within(here, lo, hi));
            },
            None => {
                lemma_body_cuts_inside(t, c);
                lemma_cuts_within_widen(here, t.nodes@[c].start as int, t.nodes@[c].end as int, lo, hi);
            },
        }
        lemma_body_cuts_from_inside(t, n, k + 1);
        lemma_cuts_within_add(here, body_cuts_from(t, n, k + 1), lo, hi);
    }
}

/// The comments inside a node lie inside it.
proof fn lemma_comment_cuts_inside(t: SyntaxTree, n: int, already: Seq<Cut>)
    requires
        t.well_formed(),
        0 <= n < t.size(),
    ensures
        cuts_within(comment_cuts(t, n, already), t.nodes@[n].start as int, t.nodes@[n].end as int),
    decreases t.size() - n, t.kids(n).len() + 1,
{
    assert(t.node_ok(n));
    if !is_comment(t.kind(n)) && !covered(already, t.nodes@[n].start, t.nodes@[n].end) {
        lemma_comment_cuts_from_inside(t, n, already, 0);
    }
}

/// The comments inside a node's children from the `k`-th on lie inside
/// the node.
proof fn lemma_comment_cuts_from_inside(t: SyntaxTree, n: int, already: Seq<Cut>, k: int)
    requires
        t.well_formed(),
        0 <= n < t.size(),
        0 <= k,
    ensures
        cuts_within(
            comment_cuts_from(t, n, already, k),
            t.nodes@[n].start as int,
            t.nodes@[n].end as int,
        ),
    decreases t.size() - n, t.kids(n).len() - k,
{
    if k < t.kids(n).len() {
        let c = t.kids(n)[k] as int;
        assert(t.node_ok(n));
        assert(t.nodes@[n].children@[k] == c);
        let lo = t.nodes@[n].start as int;
        let hi = t.nodes@[n].end as int;
        lemma_comment_cuts_inside(t, c, already);
        lemma_cuts_within_widen(
            comment_cuts(t, c, already),
            t.nodes@[c].start as int,
            t.nodes@[c].end as int,
            lo,
            hi,
        );
        lemma_comment_cuts_from_inside(t, n, already, k + 1);
        lemma_cuts_within_add(comment_cuts(t, c, already), comment_cuts_from(t, n, already, k + 1), lo, hi);
    }
}

/// Keeping the cuts that start before a bound keeps cuts inside a span
/// inside it.
proof fn lemma_starting_before_inside(cuts: Seq<Cut>, bound: usize, a: int, b: int)
    requires
        cuts_within(cuts, a, b),
    ensures
        cuts_within(starting_before(cuts, bound), a, b),
    decreases cuts.len(),
{
    if cuts.len() > 0 {
        assert(cuts_within(cuts.skip(1), a, b)) by {
            assert forall|i: int| 0 <= i < cuts.skip(1).len() implies a <= (
            #[trigger] cuts.skip(1)[i]).start <= cuts.skip(1)[i].end && cuts.skip(1)[i].end <= b by {
                assert(cuts.skip(1)[i] == cuts[i + 1]);
            }
        }
        lemma_starting_before_inside(cuts.skip(1), bound, a, b);
        assert(cuts_within(seq![cuts[0]], a, b));
        lemma_cuts_within_add(seq![cuts[0]], starting_before(cuts.skip(1), bound), a, b);
    }
}

/// Every cut a signature makes lies inside the definition.
proof fn lemma_signature_cuts_inside(t: SyntaxTree, n: int)
    requires
        t.well_formed(),
        0 <= n < t.size(),
    ensures
        cuts_within(signature_cuts(t, n), t.nodes@[n].start as int, t.nodes@[n].end as int),
{
    let lo = t.nodes@[n].start as int;
    let hi = t.nodes@[n].end as int;
    assert(t.node_ok(n));
    if spec_body_place(t.kind(n)) == BodyPlace::ClassMembers {
        lemma_body_cuts_inside(t, n);
        lemma_comment_cuts_inside(t, n, body_cuts(t, n));
        lemma_cuts_within_add(body_cuts(t, n), comment_cuts(t, n, body_cuts(t, n)), lo, hi);
    } else {
        lemma_comment_cuts_inside(t, n, seq![]);
        t.lemma_field_child_inside(n, "value"@);
        t.lemma_field_child_inside(n, "body"@);
        match t.field_child(n, "value"@) {
            Some(v) => {
                t.lemma_field_child_inside(v as int, "body"@);
            },
            None => {},
        }
        match body_of(t, n) {
            Some(b) => {
                assert(t.node_ok(b as int));
                let kept = starting_before(comment_cuts(t, n, seq![]), t.nodes@[b as int].start);
                lemma_starting_before_inside(comment_cuts(t, n, seq![]), t.nodes@[b as int].start, lo, hi);
                lemma_cuts_within_add(kept, seq![Cut { start: t.nodes@[b as int].start, end: t.nodes@[n].end }], lo, hi);
                assert(kept.push(Cut { start: t.nodes@[b as int].start, end: t.nodes@[n].end }) =~= kept
                    + seq![Cut { start: t.nodes@[b as int].start, end: t.nodes@[n].end }]);
            },
            None => {
                lemma_starting_before_inside(comment_cuts(t, n, seq![]), t.nodes@[n].end, lo, hi);
            },
        }
    }
}

/// Slices the signature of definition `n` out of `src`; see
/// [`spec_signature`].
pub fn slice_signature(t: &SyntaxTree, src: &[char], n: usize) -> (r: String)
    requires
        t.well_formed(),
        t.fits(src@.len()),
        n < t.size(),
    ensures
        r@ == spec_signature(*t, src@, n as int),
{
    let cuts = find_signature_cuts(t, n);
    proof {
        lemma_signature_cuts_inside(*t, n as int);
        assert(t.node_ok(n as int));
    }
    let kept = text_without(src, t.nodes[n].start, t.nodes[n].end, cuts);
    let text = crate::text::chars_to_string(kept.as_slice());
    normalize_whitespace(text.as_str())
}

} // verus!
