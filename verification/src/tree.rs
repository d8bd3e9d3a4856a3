//! A parsed syntax tree as plain values: each node's kind, the field it
//! sits under in its parent, its span in the source's characters and
//! rows, and its links. Nodes are numbered so that a parent comes before
//! its children, which makes every walk up or down the tree terminate.
use vstd::prelude::*;

use crate::diff::LineRange;
use crate::text::{chars_eq, str_to_chars};

verus! {

/// One node of a syntax tree.
#[derive(Debug, Clone)]
pub struct SyntaxNode {
    /// The grammar's name for the node (`function_item`, `comment`, ...).
    pub kind: String,
    /// The field of its parent the node fills, if any (`name`, `body`, ...).
    pub field: Option<String>,
    /// Whether the grammar names the node (punctuation is anonymous).
    pub named: bool,
    /// The node's span, as indices into the source's characters.
    pub start: usize,
    pub end: usize,
    /// The 0-based rows the node starts and ends on.
    pub start_row: usize,
    pub end_row: usize,
    /// The index of the enclosing node; `None` for the root.
    pub parent: Option<usize>,
    /// The indices of the node's children, in source order.
    pub children: Vec<usize>,
}

/// A syntax tree; see [`SyntaxTree::well_formed`].
#[derive(Debug, Clone)]
pub struct SyntaxTree {
    pub nodes: Vec<SyntaxNode>,
}

/// Whether two strings read the same.
pub fn str_eq(a: &str, b: &str) -> (r: bool)
    ensures
        r == (a@ == b@),
{
    let x = str_to_chars(a);
    let y = str_to_chars(b);
    chars_eq(x.as_slice(), y.as_slice())
}

/// The first position at or after `i` where `kids` holds `x`.
pub open spec fn position_from(kids: Seq<usize>, x: usize, i: int) -> Option<int>
    decreases kids.len() - i,
{
    if i < 0 || i >= kids.len() {
        None
    } else if kids[i] == x {
        Some(i)
    } else {
        position_from(kids, x, i + 1)
    }
}

/// The characters `src[start..end]` as a string.
pub fn chars_between(src: &[char], start: usize, end: usize) -> (r: String)
    requires
        start <= end <= src@.len(),
    ensures
        r@ == src@.subrange(start as int, end as int),
{
    let mut out: Vec<char> = Vec::new();
    let mut i = start;
    while i < end
        invariant
            start <= i <= end <= src@.len(),
            out@ == src@.subrange(start as int, i as int),
        decreases end - i,
    {
        out.push(src[i]);
        i += 1;
        assert(out@ =~= src@.subrange(start as int, i as int));
    }
    crate::text::chars_to_string(out.as_slice())
}

impl SyntaxTree {
    /// The number of nodes.
    pub open spec fn size(self) -> int {
        self.nodes@.len() as int
    }

    /// The kind of node `n`.
    pub open spec fn kind(self, n: int) -> Seq<char> {
        self.nodes@[n].kind@
    }

    /// The children of node `n`.
    pub open spec fn kids(self, n: int) -> Seq<usize> {
        self.nodes@[n].children@
    }

    /// Whether node `n` fills the field `field` of its parent.
    pub open spec fn has_field(self, n: int, field: Seq<char>) -> bool {
        match self.nodes@[n].field {
            Some(f) => f@ == field,
            None => false,
        }
    }

    /// The text of node `n` in `src`.
    pub open spec fn text(self, src: Seq<char>, n: int) -> Seq<char> {
        src.subrange(self.nodes@[n].start as int, self.nodes@[n].end as int)
    }

    /// Node `n` is consistent: its span lies inside its parent's, its
    /// parent comes before it and its children after it.
    pub open spec fn node_ok(self, n: int) -> bool {
        let node = self.nodes@[n];
        &&& node.start <= node.end
        &&& node.start_row < usize::MAX
        &&& node.end_row < usize::MAX
        &&& match node.parent {
            Some(p) => p < n,
            None => true,
        }
        &&& forall|k: int|
            0 <= k < node.children@.len() ==> {
                let c = #[trigger] node.children@[k];
                &&& n < c < self.size()
                &&& node.start <= self.nodes@[c as int].start
                &&& self.nodes@[c as int].end <= node.end
            }
    }

    /// Every node is consistent.
    pub open spec fn well_formed(self) -> bool {
        forall|n: int| 0 <= n < self.size() ==> #[trigger] self.node_ok(n)
    }

    /// Every node's span lies in a source of `text_len` characters.
    pub open spec fn fits(self, text_len: nat) -> bool {
        forall|n: int| 0 <= n < self.size() ==> (#[trigger] self.nodes@[n]).end <= text_len
    }

    /// Whether the tree is well formed and fits a source of `text_len`
    /// characters.
    pub fn is_well_formed(&self, text_len: usize) -> (r: bool)
        ensures
            r == (self.well_formed() && self.fits(text_len as nat)),
    {
        let mut n: usize = 0;
        while n < self.nodes.len()
            invariant
                n <= self.size(),
                forall|m: int| 0 <= m < n ==> #[trigger] self.node_ok(m),
                forall|m: int| 0 <= m < n ==> (#[trigger] self.nodes@[m]).end <= text_len,
            decreases self.nodes.len() - n,
        {
            let node = &self.nodes[n];
            if node.end > text_len {
                assert(self.nodes@[n as int].end > text_len);
                return false;
            }
            if node.start > node.end || node.start_row == usize::MAX || node.end_row == usize::MAX {
                assert(!self.node_ok(n as int));
                return false;
            }
            match node.parent {
                Some(p) => {
                    if p >= n {
                        assert(!self.node_ok(n as int));
                        return false;
                    }
                },
                None => {},
            }
            let mut k: usize = 0;
            while k < node.children.len()
                invariant
                    n < self.size(),
                    node == self.nodes@[n as int],
                    k <= node.children@.len(),
                    forall|j: int|
                        0 <= j < k ==> {
                            let c = #[trigger] node.children@[j];
                            &&& n < c < self.size()
                            &&& node.start <= self.nodes@[c as int].start
                            &&& self.nodes@[c as int].end <= node.end
                        },
                decreases node.children.len() - k,
            {
                let c = node.children[k];
                if c <= n || c >= self.nodes.len() {
                    assert(node.children@[k as int] == c);
                    assert(!self.node_ok(n as int));
                    return false;
                }
                let child = &self.nodes[c];
                if child.start < node.start || child.end > node.end {
                    assert(node.children@[k as int] == c);
                    assert(!self.node_ok(n as int));
                    return false;
                }
                k += 1;
            }
            assert(self.node_ok(n as int));
            n += 1;
        }
        true
    }

    /// The first of `kids` that fills the field `field`.
    pub open spec fn first_with_field(self, kids: Seq<usize>, field: Seq<char>) -> Option<usize>
        decreases kids.len(),
    {
        if kids.len() == 0 {
            None
        } else if self.has_field(kids[0] as int, field) {
            Some(kids[0])
        } else {
            self.first_with_field(kids.skip(1), field)
        }
    }

    /// The child of node `n` filling the field `field`
    /// (`child_by_field_name`).
    pub open spec fn field_child(self, n: int, field: Seq<char>) -> Option<usize> {
        self.first_with_field(self.kids(n), field)
    }

    /// The first named node among `kids`.
    pub open spec fn first_named_in(self, kids: Seq<usize>) -> Option<usize>
        decreases kids.len(),
    {
        if kids.len() == 0 {
            None
        } else if self.nodes@[kids[0] as int].named {
            Some(kids[0])
        } else {
            self.first_named_in(kids.skip(1))
        }
    }

    /// The first named child of node `n` (`named_child(0)`).
    pub open spec fn first_named_child(self, n: int) -> Option<usize> {
        self.first_named_in(self.kids(n))
    }

    /// Whether `a` encloses node `n`, strictly.
    pub open spec fn is_ancestor(self, a: int, n: int) -> bool
        decreases n,
    {
        if 0 <= n < self.size() {
            match self.nodes@[n].parent {
                Some(p) => if p < n {
                    p == a || self.is_ancestor(a, p as int)
                } else {
                    false
                },
                None => false,
            }
        } else {
            false
        }
    }

    /// The rows node `n` spans, 1-based and inclusive.
    pub open spec fn line_range_of(self, n: int) -> LineRange {
        LineRange {
            start: (self.nodes@[n].start_row + 1) as usize,
            end: (self.nodes@[n].end_row + 1) as usize,
        }
    }

    /// A child found by field lies among the node's children.
    pub proof fn lemma_first_with_field_in(self, kids: Seq<usize>, field: Seq<char>)
        ensures
            match self.first_with_field(kids, field) {
                Some(x) => kids.contains(x),
                None => true,
            },
        decreases kids.len(),
    {
        if kids.len() > 0 && !self.has_field(kids[0] as int, field) {
            self.lemma_first_with_field_in(kids.skip(1), field);
            match self.first_with_field(kids.skip(1), field) {
                Some(x) => {
                    let i = choose|i: int| 0 <= i < kids.skip(1).len() && kids.skip(1)[i] == x;
                    assert(kids[i + 1] == x);
                },
                None => {},
            }
        } else if kids.len() > 0 {
            assert(kids[0] == kids[0]);
        }
    }

    /// A node's child by field comes after it and lies inside its span.
    pub proof fn lemma_field_child_inside(self, n: int, field: Seq<char>)
        requires
            self.well_formed(),
            0 <= n < self.size(),
        ensures
            match self.field_child(n, field) {
                Some(x) => n < x < self.size() && self.nodes@[n].start <= self.nodes@[x as int].start
                    && self.nodes@[x as int].end <= self.nodes@[n].end,
                None => true,
            },
    {
        self.lemma_first_with_field_in(self.kids(n), field);
        assert(self.node_ok(n));
        match self.field_child(n, field) {
            Some(x) => {
                let k = choose|k: int| 0 <= k < self.kids(n).len() && self.kids(n)[k] == x;
                assert(self.nodes@[n].children@[k] == x);
            },
            None => {},
        }
    }

    /// The first named node of a list lies among it.
    pub proof fn lemma_first_named_in(self, kids: Seq<usize>)
        ensures
            match self.first_named_in(kids) {
                Some(x) => kids.contains(x),
                None => true,
            },
        decreases kids.len(),
    {
        if kids.len() > 0 && !self.nodes@[kids[0] as int].named {
            self.lemma_first_named_in(kids.skip(1));
            match self.first_named_in(kids.skip(1)) {
                Some(x) => {
                    let i = choose|i: int| 0 <= i < kids.skip(1).len() && kids.skip(1)[i] == x;
                    assert(kids[i + 1] == x);
                },
                None => {},
            }
        } else if kids.len() > 0 {
            assert(kids[0] == kids[0]);
        }
    }

    /// A node's first named child comes after it and lies inside its span.
    pub proof fn lemma_first_named_child_inside(self, n: int)
        requires
            self.well_formed(),
            0 <= n < self.size(),
        ensures
            match self.first_named_child(n) {
                Some(x) => n < x < self.size() && self.nodes@[n].start <= self.nodes@[x as int].start
                    && self.nodes@[x as int].end <= self.nodes@[n].end,
                None => true,
            },
    {
        self.lemma_first_named_in(self.kids(n));
        assert(self.node_ok(n));
        match self.first_named_child(n) {
            Some(x) => {
                let k = choose|k: int| 0 <= k < self.kids(n).len() && self.kids(n)[k] == x;
                assert(self.nodes@[n].children@[k] == x);
            },
            None => {},
        }
    }

    /// The first named child of node `n`.
    pub fn named_child_first(&self, n: usize) -> (r: Option<usize>)
        requires
            self.well_formed(),
            n < self.size(),
        ensures
            r == self.first_named_child(n as int),
            match r {
                Some(x) => n < x < self.size(),
                None => true,
            },
    {
        proof {
            self.lemma_first_named_child_inside(n as int);
        }
        let kids = &self.nodes[n].children;
        let mut k: usize = 0;
        assert(kids@.skip(0) =~= kids@);
        while k < kids.len()
            invariant
                self.well_formed(),
                n < self.size(),
                kids@ == self.kids(n as int),
                k <= kids@.len(),
                self.first_named_in(kids@) == self.first_named_in(kids@.skip(k as int)),
            decreases kids.len() - k,
        {
            let c = kids[k];
            assert(kids@.skip(k as int)[0] == c);
            assert(kids@.skip(k as int).skip(1) =~= kids@.skip(k + 1));
            assert(self.node_ok(n as int));
            assert(c < self.size());
            if self.nodes[c].named {
                return Some(c);
            }
            k += 1;
        }
        assert(kids@.skip(k as int) =~= Seq::<usize>::empty());
        None
    }

    /// Whether node `n` is of kind `kind`.
    pub fn kind_is(&self, n: usize, kind: &str) -> (r: bool)
        requires
            n < self.size(),
        ensures
            r == (self.kind(n as int) == kind@),
    {
        str_eq(self.nodes[n].kind.as_str(), kind)
    }

    /// Whether `ancestor` encloses `node`, strictly.
    pub fn is_descendant_of(&self, node: usize, ancestor: usize) -> (r: bool)
        requires
            self.well_formed(),
            node < self.size(),
        ensures
            r == self.is_ancestor(ancestor as int, node as int),
    {
        let mut current = node;
        loop
            invariant
                self.well_formed(),
                current < self.size(),
                self.is_ancestor(ancestor as int, node as int) == self.is_ancestor(
                    ancestor as int,
                    current as int,
                ),
            decreases current,
        {
            assert(self.node_ok(current as int));
            match self.nodes[current].parent {
                Some(p) => {
                    if p == ancestor {
                        return true;
                    }
                    current = p;
                },
                None => {
                    return false;
                },
            }
        }
    }

    /// The text of node `n` in `src`.
    pub fn node_text(&self, src: &[char], n: usize) -> (r: String)
        requires
            self.well_formed(),
            self.fits(src@.len()),
            n < self.size(),
        ensures
            r@ == self.text(src@, n as int),
    {
        assert(self.node_ok(n as int));
        assert(self.nodes@[n as int].end <= src@.len());
        chars_between(src, self.nodes[n].start, self.nodes[n].end)
    }

    /// Whether node `n` reads `s` in `src`.
    pub fn text_is(&self, src: &[char], n: usize, s: &str) -> (r: bool)
        requires
            self.well_formed(),
            self.fits(src@.len()),
            n < self.size(),
        ensures
            r == (self.text(src@, n as int) == s@),
    {
        assert(self.node_ok(n as int));
        assert(self.nodes@[n as int].end <= src@.len());
        let want = str_to_chars(s);
        let start = self.nodes[n].start;
        let end = self.nodes[n].end;
        if end - start != want.len() {
            assert(self.text(src@, n as int).len() != s@.len());
            return false;
        }
        let mut i: usize = 0;
        while i < want.len()
            invariant
                n < self.size(),
                start == self.nodes@[n as int].start,
                end == self.nodes@[n as int].end,
                start <= end <= src@.len(),
                end - start == want@.len(),
                want@ == s@,
                i <= want@.len(),
                forall|j: int| 0 <= j < i ==> src@[start + j] == want@[j],
            decreases want.len() - i,
        {
            if src[start + i] != want[i] {
                assert(self.text(src@, n as int)[i as int] != s@[i as int]);
                return false;
            }
            i += 1;
        }
        assert(self.text(src@, n as int) =~= s@);
        true
    }

    /// The rows node `n` spans, 1-based and inclusive.
    pub fn line_range(&self, n: usize) -> (r: LineRange)
        requires
            self.well_formed(),
            n < self.size(),
        ensures
            r == self.line_range_of(n as int),
    {
        assert(self.node_ok(n as int));
        LineRange { start: self.nodes[n].start_row + 1, end: self.nodes[n].end_row + 1 }
    }

    /// Where node `n` stands among its parent's children: the parent and
    /// the position.
    pub open spec fn sibling_slot(self, n: int) -> Option<(usize, int)> {
        match self.nodes@[n].parent {
            Some(p) => match position_from(self.kids(p as int), n as usize, 0) {
                Some(i) => Some((p, i)),
                None => None,
            },
            None => None,
        }
    }

    /// Finds where node `n` stands among its parent's children.
    pub fn sibling_position(&self, n: usize) -> (r: Option<(usize, usize)>)
        requires
            self.well_formed(),
            n < self.size(),
        ensures
            match r {
                Some((p, i)) => self.sibling_slot(n as int) == Some((p, i as int)) && p < n
                    && i < self.kids(p as int).len(),
                None => self.sibling_slot(n as int) is None,
            },
    {
        assert(self.node_ok(n as int));
        let p = match self.nodes[n].parent {
            Some(p) => p,
            None => {
                return None;
            },
        };
        let kids = &self.nodes[p].children;
        let mut i: usize = 0;
        while i < kids.len()
            invariant
                n < self.size(),
                self.nodes@[n as int].parent == Some(p),
                p < n,
                kids@ == self.kids(p as int),
                i <= kids@.len(),
                position_from(kids@, n, 0) == position_from(kids@, n, i as int),
            decreases kids.len() - i,
        {
            if kids[i] == n {
                return Some((p, i));
            }
            i += 1;
        }
        None
    }

    /// The child of node `n` filling the field `field`.
    pub fn child_by_field(&self, n: usize, field: &str) -> (r: Option<usize>)
        requires
            self.well_formed(),
            n < self.size(),
        ensures
            r == self.field_child(n as int, field@),
            match r {
                Some(x) => n < x < self.size(),
                None => true,
            },
    {
        proof {
            self.lemma_field_child_inside(n as int, field@);
        }
        let kids = &self.nodes[n].children;
        let mut k: usize = 0;
        assert(kids@.skip(0) =~= kids@);
        while k < kids.len()
            invariant
                self.well_formed(),
                n < self.size(),
                kids@ == self.kids(n as int),
                k <= kids@.len(),
                self.first_with_field(kids@, field@) == self.first_with_field(
                    kids@.skip(k as int),
                    field@,
                ),
            decreases kids.len() - k,
        {
            let c = kids[k];
            assert(kids@.skip(k as int)[0] == c);
            assert(kids@.skip(k as int).skip(1) =~= kids@.skip(k + 1));
            assert(self.node_ok(n as int));
            assert(c < self.size());
            let hit = match &self.nodes[c].field {
                Some(f) => str_eq(f.as_str(), field),
                None => false,
            };
            if hit {
                return Some(c);
            }
            k += 1;
        }
        assert(kids@.skip(k as int) =~= Seq::<usize>::empty());
        None
    }
}

} // verus!
