//! Which Rust definitions are unit tests: those marked `#[test]`,
//! `#[tokio::test]` or `#[rstest]`, and those inside a module that
//! `#[cfg(test)]` or `#![cfg(test)]` compiles only for tests.
use vstd::prelude::*;

use crate::tree::{position_from, SyntaxTree};

verus! {

/// The node naming an `attribute`: its first named child, or that child's
/// `name` field when it is a path (`tokio::test`).
pub open spec fn attribute_name_node(t: SyntaxTree, at: int) -> Option<usize> {
    match t.first_named_child(at) {
        Some(x) => if t.kind(x as int) == "scoped_identifier"@ {
            t.field_child(x as int, "name"@)
        } else {
            Some(x)
        },
        None => None,
    }
}

/// Whether attribute item `a` is `#[test]`, `#[rstest]` or a path ending
/// in `test` (`#[tokio::test]`).
pub open spec fn is_test_attribute_item(t: SyntaxTree, src: Seq<char>, a: int) -> bool {
    match t.first_named_child(a) {
        Some(at) => t.kind(at as int) == "attribute"@ && match attribute_name_node(t, at as int) {
            Some(x) => t.text(src, x as int) == "test"@ || t.text(src, x as int) == "rstest"@,
            None => false,
        },
        None => false,
    }
}

/// Whether the argument list `tt` of a `cfg` enables on `test`: a `test`
/// identifier stands in it, or in a nested list, outside every list that
/// directly follows a `not`.
pub open spec fn token_tree_gates(t: SyntaxTree, src: Seq<char>, tt: int) -> bool
    decreases t.size() - tt, t.kids(tt).len() + 1,
{
    if 0 <= tt < t.size() {
        token_items_gate(t, src, tt, 0)
    } else {
        false
    }
}

/// Whether the items of argument list `tt` from the `i`-th on enable on
/// `test`; see [`token_tree_gates`].
pub open spec fn token_items_gate(t: SyntaxTree, src: Seq<char>, tt: int, i: int) -> bool
    decreases t.size() - tt, t.kids(tt).len() - i,
{
    if 0 <= tt < t.size() && 0 <= i < t.kids(tt).len() {
        let kids = t.kids(tt);
        let c = kids[i] as int;
        let ident = t.kind(c) == "identifier"@;
        if ident && t.text(src, c) == "not"@ && i + 1 < kids.len() && t.kind(kids[i + 1] as int)
            == "token_tree"@ {
            token_items_gate(t, src, tt, i + 2)
        } else if ident && t.text(src, c) == "test"@ {
            true
        } else if t.kind(c) == "token_tree"@ && tt < c < t.size() && token_tree_gates(t, src, c) {
            true
        } else {
            token_items_gate(t, src, tt, i + 1)
        }
    } else {
        false
    }
}

/// Whether attribute item `a` is `#[cfg(...)]` (or `#![cfg(...)]`) with
/// arguments that enable on `test`.
pub open spec fn is_cfg_test_attribute_item(t: SyntaxTree, src: Seq<char>, a: int) -> bool {
    match t.first_named_child(a) {
        Some(at) => {
            &&& t.kind(at as int) == "attribute"@
            &&& match t.first_named_child(at as int) {
                Some(x) => t.text(src, x as int) == "cfg"@,
                None => false,
            }
            &&& match t.field_child(at as int, "arguments"@) {
                Some(args) => token_tree_gates(t, src, args as int),
                None => false,
            }
        },
        None => false,
    }
}

/// Whether a node kind may stand between an item and an attribute of it:
/// another attribute, or a comment.
pub open spec fn skippable_before_item(kind: Seq<char>) -> bool {
    kind == "attribute_item"@ || kind == "line_comment"@ || kind == "block_comment"@
}

/// Walking back from position `i` of `kids`, whether an attribute item of
/// the wanted sort (`cfg(test)` when `cfg`, a test marker otherwise)
/// comes before anything but attributes and comments.
pub open spec fn attribute_before(t: SyntaxTree, src: Seq<char>, kids: Seq<usize>, i: int, cfg: bool) -> bool
    decreases i,
{
    if 0 < i <= kids.len() {
        let c = kids[i - 1] as int;
        let wanted = if cfg {
            is_cfg_test_attribute_item(t, src, c)
        } else {
            is_test_attribute_item(t, src, c)
        };
        if t.kind(c) == "attribute_item"@ && wanted {
            true
        } else if !skippable_before_item(t.kind(c)) {
            false
        } else {
            attribute_before(t, src, kids, i - 1, cfg)
        }
    } else {
        false
    }
}

/// Whether node `n` carries an attribute of the wanted sort among the
/// siblings before it; see [`attribute_before`].
pub open spec fn has_attribute(t: SyntaxTree, src: Seq<char>, n: int, cfg: bool) -> bool {
    match t.sibling_slot(n) {
        Some((p, i)) => attribute_before(t, src, t.kids(p as int), i, cfg),
        None => false,
    }
}

/// Whether the `k`-th item of block `b` is `#![cfg(test)]`.
pub open spec fn inner_cfg_test_at(t: SyntaxTree, src: Seq<char>, b: int, k: int) -> bool {
    &&& 0 <= k < t.kids(b).len()
    &&& t.kind(t.kids(b)[k] as int) == "inner_attribute_item"@
    &&& is_cfg_test_attribute_item(t, src, t.kids(b)[k] as int)
}

/// Whether some item of block `b` is `#![cfg(test)]`.
pub open spec fn has_inner_cfg_test(t: SyntaxTree, src: Seq<char>, b: int) -> bool {
    exists|k: int| #[trigger] inner_cfg_test_at(t, src, b, k)
}

/// Whether module `m` is compiled only for tests: `#[cfg(test)]` before
/// it, or `#![cfg(test)]` among the items of its body.
pub open spec fn mod_has_cfg_test(t: SyntaxTree, src: Seq<char>, m: int) -> bool {
    has_attribute(t, src, m, true) || match t.field_child(m, "body"@) {
        Some(b) => has_inner_cfg_test(t, src, b as int),
        None => false,
    }
}

/// Whether some module enclosing node `n` is compiled only for tests.
pub open spec fn inside_test_module(t: SyntaxTree, src: Seq<char>, n: int) -> bool
    decreases n,
{
    if 0 <= n < t.size() {
        match t.nodes@[n].parent {
            Some(p) => if p < n {
                (t.kind(p as int) == "mod_item"@ && mod_has_cfg_test(t, src, p as int))
                    || inside_test_module(t, src, p as int)
            } else {
                false
            },
            None => false,
        }
    } else {
        false
    }
}

/// Whether Rust definition `n` is a unit test: marked as a test itself,
/// or inside a module compiled only for tests, however deeply.
pub open spec fn spec_is_test_definition(t: SyntaxTree, src: Seq<char>, n: int) -> bool {
    has_attribute(t, src, n, false) || inside_test_module(t, src, n)
}

/// Finds the node naming attribute `at`; see [`attribute_name_node`].
fn attribute_name(t: &SyntaxTree, at: usize) -> (r: Option<usize>)
    requires
        t.well_formed(),
        at < t.size(),
    ensures
        r == attribute_name_node(*t, at as int),
        match r {
            Some(x) => x < t.size(),
            None => true,
        },
{
    match t.named_child_first(at) {
        Some(x) => if t.kind_is(x, "scoped_identifier") {
            t.child_by_field(x, "name")
        } else {
            Some(x)
        },
        None => None,
    }
}

/// Decides [`is_test_attribute_item`].
fn test_attribute_item(t: &SyntaxTree, src: &[char], a: usize) -> (r: bool)
    requires
        t.well_formed(),
        t.fits(src@.len()),
        a < t.size(),
    ensures
        r == is_test_attribute_item(*t, src@, a as int),
{
    match t.named_child_first(a) {
        Some(at) => {
            if !t.kind_is(at, "attribute") {
                return false;
            }
            match attribute_name(t, at) {
                Some(x) => t.text_is(src, x, "test") || t.text_is(src, x, "rstest"),
                None => false,
            }
        },
        None => false,
    }
}

/// Decides [`token_tree_gates`] for argument list `tt`.
fn token_tree_gates_on_test(t: &SyntaxTree, src: &[char], tt: usize) -> (r: bool)
    requires
        t.well_formed(),
        t.fits(src@.len()),
        tt < t.size(),
    ensures
        r == token_tree_gates(*t, src@, tt as int),
    decreases t.size() - tt,
{
    let kids = &t.nodes[tt].children;
    let mut i: usize = 0;
    proof {
        assert(t.node_ok(tt as int));
    }
    while i < kids.len()
        invariant
            t.well_formed(),
            t.fits(src@.len()),
            tt < t.size(),
            t.node_ok(tt as int),
            kids@ == t.kids(tt as int),
            i <= kids@.len(),
            token_tree_gates(*t, src@, tt as int) == token_items_gate(*t, src@, tt as int, i as int),
        decreases kids.len() - i,
    {
        let c = kids[i];
        assert(t.nodes@[tt as int].children@[i as int] == c);
        let ident = t.kind_is(c, "identifier");
        if ident && t.text_is(src, c, "not") && i + 1 < kids.len() {
            let next = kids[i + 1];
            assert(t.nodes@[tt as int].children@[i + 1] == next);
            if t.kind_is(next, "token_tree") {
                i += 2;
                continue;
            }
        }
        if ident && t.text_is(src, c, "test") {
            return true;
        }
        if t.kind_is(c, "token_tree") && token_tree_gates_on_test(t, src, c) {
            return true;
        }
        i += 1;
    }
    false
}

/// Decides [`is_cfg_test_attribute_item`].
fn cfg_test_attribute_item(t: &SyntaxTree, src: &[char], a: usize) -> (r: bool)
    requires
        t.well_formed(),
        t.fits(src@.len()),
        a < t.size(),
    ensures
        r == is_cfg_test_attribute_item(*t, src@, a as int),
{
    let at = match t.named_child_first(a) {
        Some(at) => at,
        None => {
            return false;
        },
    };
    if !t.kind_is(at, "attribute") {
        return false;
    }
    let is_cfg = match t.named_child_first(at) {
        Some(x) => t.text_is(src, x, "cfg"),
        None => false,
    };
    if !is_cfg {
        return false;
    }
    match t.child_by_field(at, "arguments") {
        Some(args) => token_tree_gates_on_test(t, src, args),
        None => false,
    }
}

/// Decides [`has_attribute`] for node `n`.
fn attribute_precedes(t: &SyntaxTree, src: &[char], n: usize, cfg: bool) -> (r: bool)
    requires
        t.well_formed(),
        t.fits(src@.len()),
        n < t.size(),
    ensures
        r == has_attribute(*t, src@, n as int, cfg),
{
    let (p, pos) = match t.sibling_position(n) {
        Some(slot) => slot,
        None => {
            return false;
        },
    };
    let kids = &t.nodes[p].children;
    let mut i = pos;
    proof {
        assert(t.node_ok(p as int));
    }
    while i > 0
        invariant
            t.well_formed(),
            t.fits(src@.len()),
            p < t.size(),
            t.node_ok(p as int),
            kids@ == t.kids(p as int),
            i <= pos < kids@.len(),
            has_attribute(*t, src@, n as int, cfg) == attribute_before(*t, src@, kids@, i as int, cfg),
        decreases i,
    {
        let c = kids[i - 1];
        assert(t.nodes@[p as int].children@[i - 1] == c);
        let is_attribute = t.kind_is(c, "attribute_item");
        let wanted = if cfg {
            cfg_test_attribute_item(t, src, c)
        } else {
            test_attribute_item(t, src, c)
        };
        if is_attribute && wanted {
            return true;
        }
        if !(is_attribute || t.kind_is(c, "line_comment") || t.kind_is(c, "block_comment")) {
            return false;
        }
        i -= 1;
    }
    false
}

/// Decides [`mod_has_cfg_test`] for module `m`.
fn mod_has_cfg_test_attribute(t: &SyntaxTree, src: &[char], m: usize) -> (r: bool)
    requires
        t.well_formed(),
        t.fits(src@.len()),
        m < t.size(),
    ensures
        r == mod_has_cfg_test(*t, src@, m as int),
{
    if attribute_precedes(t, src, m, true) {
        return true;
    }
    let b = match t.child_by_field(m, "body") {
        Some(b) => b,
        None => {
            return false;
        },
    };
    let kids = &t.nodes[b].children;
    let mut k: usize = 0;
    proof {
        assert(t.node_ok(b as int));
    }
    while k < kids.len()
        invariant
            t.well_formed(),
            t.fits(src@.len()),
            m < t.size(),
            b < t.size(),
            t.field_child(m as int, "body"@) == Some(b),
            !has_attribute(*t, src@, m as int, true),
            t.node_ok(b as int),
            kids@ == t.kids(b as int),
            k <= kids@.len(),
            forall|j: int| 0 <= j < k ==> !#[trigger] inner_cfg_test_at(*t, src@, b as int, j),
        decreases kids.len() - k,
    {
        let c = kids[k];
        assert(t.nodes@[b as int].children@[k as int] == c);
        if t.kind_is(c, "inner_attribute_item") && cfg_test_attribute_item(t, src, c) {
            assert(t.kids(b as int)[k as int] == c);
            assert(inner_cfg_test_at(*t, src@, b as int, k as int));
            assert(has_inner_cfg_test(*t, src@, b as int));
            return true;
        }
        k += 1;
    }
    false
}

/// Whether Rust definition `n` is a unit test; see
/// [`spec_is_test_definition`].
pub fn is_test_definition(t: &SyntaxTree, src: &[char], n: usize) -> (r: bool)
    requires
        t.well_formed(),
        t.fits(src@.len()),
        n < t.size(),
    ensures
        r == spec_is_test_definition(*t, src@, n as int),
{
    if attribute_precedes(t, src, n, false) {
        return true;
    }
    let mut current = n;
    loop
        invariant
            t.well_formed(),
            t.fits(src@.len()),
            n < t.size(),
            current < t.size(),
            !has_attribute(*t, src@, n as int, false),
            inside_test_module(*t, src@, n as int) == inside_test_module(*t, src@, current as int),
        decreases current,
    {
        assert(t.node_ok(current as int));
        match t.nodes[current].parent {
            Some(p) => {
                if t.kind_is(p, "mod_item") && mod_has_cfg_test_attribute(t, src, p) {
                    return true;
                }
                current = p;
            },
            None => {
                return false;
            },
        }
    }
}

// ---------------------------------------------------------------------
// Law: stacked attributes do not hide a test marker.
// ---------------------------------------------------------------------

proof fn lemma_position_from_in(kids: Seq<usize>, x: usize, i: int)
    ensures
        position_from(kids, x, i) matches Some(j) ==> 0 <= i <= j < kids.len(),
    decreases kids.len() - i,
{
    if 0 <= i < kids.len() && kids[i] != x {
        lemma_position_from_in(kids, x, i + 1);
    }
}

proof fn lemma_attribute_run(t: SyntaxTree, src: Seq<char>, kids: Seq<usize>, j: int, i: int, cfg: bool)
    requires
        0 <= j < i <= kids.len(),
        t.kind(kids[j] as int) == "attribute_item"@,
        if cfg {
            is_cfg_test_attribute_item(t, src, kids[j] as int)
        } else {
            is_test_attribute_item(t, src, kids[j] as int)
        },
        forall|k: int|
            j < k < i ==> {
                let kind = t.kind(#[trigger] kids[k] as int);
                kind == "attribute_item"@ || kind == "line_comment"@ || kind == "block_comment"@
            },
    ensures
        attribute_before(t, src, kids, i, cfg),
    decreases i,
{
    if i > j + 1 {
        lemma_attribute_run(t, src, kids, j, i - 1, cfg);
        let c = kids[i - 1];
        assert(t.kind(c as int) == "attribute_item"@ || t.kind(c as int) == "line_comment"@ || t.kind(c as int)
            == "block_comment"@);
    }
}

/// Attribute item `a` reads `#[test]`, `#[rstest]`, or a path whose last
/// segment is one of them (`#[tokio::test]`), as the tree shows it.
pub open spec fn written_as_test_marker(t: SyntaxTree, src: Seq<char>, a: int) -> bool {
    exists|at: usize, x: usize|
        {
            &&& t.first_named_child(a) == Some(at)
            &&& t.kind(at as int) == "attribute"@
            &&& t.first_named_child(at as int) == Some(x)
            &&& if t.kind(x as int) == "scoped_identifier"@ {
                exists|y: usize|
                    t.field_child(x as int, "name"@) == Some(y) && (t.text(src, y as int) == "test"@ || t.text(
                        src,
                        y as int,
                    ) == "rstest"@)
            } else {
                t.text(src, x as int) == "test"@ || t.text(src, x as int) == "rstest"@
            }
        }
}

/// A Rust definition is a test when a test marker (`#[test]`,
/// `#[rstest]`, `#[tokio::test]`, ...) stands among the siblings before
/// it with nothing but other attributes and comments in between, however
/// many: `#[test]` above `#[should_panic]` marks the function a test.
pub proof fn law_stacked_attributes_keep_the_test_marker(t: SyntaxTree, src: Seq<char>, n: int, j: int)
    requires
        t.sibling_slot(n) is Some,
        ({
            let (p, i) = t.sibling_slot(n).unwrap();
            let kids = t.kids(p as int);
            &&& 0 <= j < i
            &&& t.kind(kids[j] as int) == "attribute_item"@
            &&& written_as_test_marker(t, src, kids[j] as int)
            &&& forall|k: int|
                j < k < i ==> {
                    let kind = t.kind(#[trigger] kids[k] as int);
                    kind == "attribute_item"@ || kind == "line_comment"@ || kind == "block_comment"@
                }
        }),
    ensures
        spec_is_test_definition(t, src, n),
{
    let (p, i) = t.sibling_slot(n).unwrap();
    let kids = t.kids(p as int);
    let a = kids[j] as int;
    let (at, x) = choose|at: usize, x: usize|
        {
            &&& t.first_named_child(a) == Some(at)
            &&& t.kind(at as int) == "attribute"@
            &&& t.first_named_child(at as int) == Some(x)
            &&& if t.kind(x as int) == "scoped_identifier"@ {
                exists|y: usize|
                    t.field_child(x as int, "name"@) == Some(y) && (t.text(src, y as int) == "test"@ || t.text(
                        src,
                        y as int,
                    ) == "rstest"@)
            } else {
                t.text(src, x as int) == "test"@ || t.text(src, x as int) == "rstest"@
            }
        };
    assert(is_test_attribute_item(t, src, a));
    lemma_position_from_in(kids, n as usize, 0);
    lemma_attribute_run(t, src, kids, j, i, false);
}

/// Likewise for `#[cfg(test)]` before a module: other attributes and
/// comments between it and the module do not hide it.
pub proof fn law_stacked_attributes_keep_cfg_test(t: SyntaxTree, src: Seq<char>, m: int, j: int)
    requires
        t.sibling_slot(m) is Some,
        ({
            let (p, i) = t.sibling_slot(m).unwrap();
            let kids = t.kids(p as int);
            &&& 0 <= j < i
            &&& t.kind(kids[j] as int) == "attribute_item"@
            &&& is_cfg_test_attribute_item(t, src, kids[j] as int)
            &&& forall|k: int|
                j < k < i ==> {
                    let kind = t.kind(#[trigger] kids[k] as int);
                    kind == "attribute_item"@ || kind == "line_comment"@ || kind == "block_comment"@
                }
        }),
    ensures
        mod_has_cfg_test(t, src, m),
{
    let (p, i) = t.sibling_slot(m).unwrap();
    lemma_position_from_in(t.kids(p as int), m as usize, 0);
    lemma_attribute_run(t, src, t.kids(p as int), j, i, true);
}

} // verus!
