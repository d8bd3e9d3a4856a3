//! Changed symbols: what a definition touched by a diff is reported as,
//! and how head-side symbols are classified against the base side.
use vstd::prelude::*;

use crate::deps::ResolvedSymbol;
use crate::diff::LineRange;

pub mod signature;
pub mod hcl;
pub mod symbols;

pub use symbols::{extract_all_symbols, extract_changed_symbols, Definition};

verus! {

/// The kind of symbol a definition node represents, in language-neutral
/// terms.
#[derive(Debug, Clone, Copy, PartialEq, Eq, Structural)]
pub enum SymbolKind {
    Function,
    Struct,
    Enum,
    Trait,
    Class,
    Interface,
    TypeAlias,
    /// A Terraform block or `locals` attribute.
    Block,
}

/// A changed symbol's contract impact, found by comparing its normalized
/// signature against the base side's.
#[derive(Debug, Clone, Copy, PartialEq, Eq, Structural)]
pub enum Classification {
    /// No matching symbol on the base side at all.
    Added,
    /// A matching base-side symbol exists with a different signature.
    SignatureChanged,
    /// A matching base-side symbol exists with an identical signature.
    BodyOnly,
}

/// A definition whose signature was extracted because one of its lines
/// fell inside a changed range.
#[derive(Debug, Clone, PartialEq, Eq)]
pub struct ExtractedSymbol {
    /// Stable identifier matching this symbol's graph node id, once the
    /// graph has been built; empty until then.
    pub id: String,
    pub name: String,
    pub kind: SymbolKind,
    /// Declaration text without its body, whitespace-normalized.
    pub signature: String,
    /// Full definition range (new-side, 1-based inclusive).
    pub range: LineRange,
    /// The enclosing impl/trait/class block's descriptive name, or a Go
    /// method's receiver type name.
    pub container: Option<String>,
    /// Names this definition references, deduplicated and sorted.
    pub referenced_names: Vec<String>,
    /// This symbol's resolved 1-hop dependencies.
    pub dependencies: Vec<ResolvedSymbol>,
    /// Count of same-name candidates cut by the per-name cap.
    pub omitted_dependency_matches: usize,
    /// Whether this definition is test code by its syntactic context.
    pub is_test: bool,
    /// This symbol's contract impact, or `None` when no base-side content
    /// was available to classify against.
    pub classification: Option<Classification>,
    /// The base-side signature, set only for `SignatureChanged`.
    pub previous_signature: Option<String>,
}

/// A symbol present on the base side of a diff but absent (by name and
/// container) from the head side.
#[derive(Debug, Clone, PartialEq, Eq)]
pub struct RemovedSymbol {
    pub name: String,
    pub kind: SymbolKind,
    pub path: String,
    /// The base-side symbol's normalized signature.
    pub signature: String,
}

/// Whether two inclusive line ranges share at least one line.
pub open spec fn ranges_overlap(a: LineRange, b: LineRange) -> bool {
    a.start <= b.end && b.start <= a.end
}

/// Whether `range` shares at least one line with any range in `others`.
pub open spec fn spec_overlaps_any(range: LineRange, others: Seq<LineRange>) -> bool {
    exists|k: int| 0 <= k < others.len() && ranges_overlap(range, #[trigger] others[k])
}

/// Whether `range` shares at least one line with any range in `others`.
pub fn overlaps_any(range: LineRange, others: &[LineRange]) -> (r: bool)
    ensures
        r == spec_overlaps_any(range, others@),
{
    let mut k: usize = 0;
    while k < others.len()
        invariant
            k <= others@.len(),
            forall|j: int| 0 <= j < k ==> !ranges_overlap(range, #[trigger] others@[j]),
        decreases others.len() - k,
    {
        if range.start <= others[k].end && others[k].start <= range.end {
            assert(ranges_overlap(range, others@[k as int]));
            return true;
        }
        k += 1;
    }
    false
}

// ---------------------------------------------------------------------
// Classifying head symbols against the base side.
// ---------------------------------------------------------------------

/// The character sequence of an optional string.
pub open spec fn opt_view(o: Option<String>) -> Option<Seq<char>> {
    match o {
        Some(s) => Some(s@),
        None => None,
    }
}

/// A symbol's identity within one file: its name and container.
pub open spec fn identity(s: ExtractedSymbol) -> (Seq<char>, Option<Seq<char>>) {
    (s.name@, opt_view(s.container))
}

/// The position of the last symbol of `base` with identity `id`.
pub open spec fn last_with_identity(base: Seq<ExtractedSymbol>, id: (Seq<char>, Option<Seq<char>>)) -> Option<int>
    decreases base.len(),
{
    if base.len() == 0 {
        None
    } else if identity(base.last()) == id {
        Some(base.len() - 1)
    } else {
        last_with_identity(base.drop_last(), id)
    }
}

proof fn lemma_last_with_identity(base: Seq<ExtractedSymbol>, id: (Seq<char>, Option<Seq<char>>))
    ensures
        match last_with_identity(base, id) {
            Some(k) => 0 <= k < base.len() && identity(base[k]) == id,
            None => forall|j: int| 0 <= j < base.len() ==> identity(#[trigger] base[j]) != id,
        },
    decreases base.len(),
{
    if base.len() > 0 && identity(base.last()) != id {
        lemma_last_with_identity(base.drop_last(), id);
        if last_with_identity(base.drop_last(), id) is None {
            assert forall|j: int| 0 <= j < base.len() implies identity(#[trigger] base[j]) != id by {
                if j < base.len() - 1 {
                    assert(base.drop_last()[j] == base[j]);
                }
            }
        }
    }
}

/// Whether `c` counts as part of a word when comparing signatures: an
/// ASCII letter or digit, `_`, or any character beyond ASCII.
pub open spec fn is_word_char(c: char) -> bool {
    ('a' <= c && c <= 'z') || ('A' <= c && c <= 'Z') || ('0' <= c && c <= '9') || c == '_' || (c as u32)
        >= 128
}

/// The first `k` characters of `s` as signatures are compared: the text
/// kept so far, whether whitespace was seen since the last other
/// character, and that character.
pub open spec fn comparison_fold(s: Seq<char>, k: int) -> (Seq<char>, bool, Option<char>)
    decreases k,
{
    if k <= 0 {
        (Seq::<char>::empty(), false, None)
    } else {
        let (out, pending, last) = comparison_fold(s, k - 1);
        let c = s[k - 1];
        if is_ws(c) {
            (out, true, last)
        } else {
            let spaced = match last {
                Some(l) => pending && is_word_char(l) && is_word_char(c),
                None => false,
            };
            let with_space = if spaced {
                out.push(' ')
            } else {
                out
            };
            (with_space.push(c), false, Some(c))
        }
    }
}

/// `s` as signatures are compared: every run of whitespace becomes one
/// space where it separates two word characters and disappears elsewhere,
/// so a reflow (`fn f(a, b)` against `fn f(a,b)`, a newline after `(`)
/// compares equal while `a b` and `ab` stay apart.
pub open spec fn comparable(s: Seq<char>) -> Seq<char> {
    comparison_fold(s, s.len() as int).0
}

fn word_char(c: char) -> (r: bool)
    ensures
        r == is_word_char(c),
{
    ('a' <= c && c <= 'z') || ('A' <= c && c <= 'Z') || ('0' <= c && c <= '9') || c == '_' || (c as u32)
        >= 128
}

/// Normalizes a signature for comparison; see [`comparable`].
pub fn normalize_for_comparison(text: &str) -> (r: String)
    ensures
        r@ == comparable(text@),
{
    let s = crate::text::str_to_chars(text);
    let mut out: Vec<char> = Vec::new();
    let mut pending = false;
    let mut last: Option<char> = None;
    let mut i: usize = 0;
    while i < s.len()
        invariant
            s@ == text@,
            i <= s@.len(),
            (out@, pending, last) == comparison_fold(s@, i as int),
        decreases s.len() - i,
    {
        let c = s[i];
        if is_whitespace(c) {
            pending = true;
        } else {
            match last {
                Some(l) => {
                    if pending && word_char(l) && word_char(c) {
                        out.push(' ');
                    }
                },
                None => {},
            }
            out.push(c);
            pending = false;
            last = Some(c);
        }
        i += 1;
    }
    crate::text::chars_to_string(out.as_slice())
}

/// Whether two signatures compare equal; see [`comparable`].
fn same_signature(a: &String, b: &String) -> (r: bool)
    ensures
        r == (comparable(a@) == comparable(b@)),
{
    let x = crate::text::str_to_chars(normalize_for_comparison(a.as_str()).as_str());
    let y = crate::text::str_to_chars(normalize_for_comparison(b.as_str()).as_str());
    crate::text::chars_eq(x.as_slice(), y.as_slice())
}

/// `head` classified against `base`: `Added` when no base symbol shares
/// its identity; otherwise, against the last base symbol that does,
/// `BodyOnly` when the signatures compare equal (see [`comparable`]) and
/// `SignatureChanged` (with the base signature kept as
/// `previous_signature`) when they do not.
pub open spec fn classified(head: ExtractedSymbol, base: Seq<ExtractedSymbol>) -> ExtractedSymbol {
    match last_with_identity(base, identity(head)) {
        None => ExtractedSymbol { classification: Some(Classification::Added), ..head },
        Some(k) => if comparable(base[k].signature@) == comparable(head.signature@) {
            ExtractedSymbol { classification: Some(Classification::BodyOnly), ..head }
        } else {
            ExtractedSymbol {
                classification: Some(Classification::SignatureChanged),
                previous_signature: Some(base[k].signature),
                ..head
            }
        },
    }
}

/// Whether some head symbol has identity `id`.
pub open spec fn head_has_identity(head: Seq<ExtractedSymbol>, id: (Seq<char>, Option<Seq<char>>)) -> bool {
    exists|i: int| 0 <= i < head.len() && identity(#[trigger] head[i]) == id
}

/// The positions, in order, of the base symbols reported as removed: no
/// head symbol shares their identity and their range overlaps a changed
/// old-side range.
pub open spec fn removed_positions(
    head: Seq<ExtractedSymbol>,
    base: Seq<ExtractedSymbol>,
    old_changed_ranges: Seq<LineRange>,
) -> Seq<int>
    decreases base.len(),
{
    if base.len() == 0 {
        seq![]
    } else {
        let prev = removed_positions(head, base.drop_last(), old_changed_ranges);
        let b = base.last();
        if !head_has_identity(head, identity(b)) && spec_overlaps_any(b.range, old_changed_ranges) {
            prev.push(base.len() - 1)
        } else {
            prev
        }
    }
}

proof fn lemma_removed_positions_bound(
    head: Seq<ExtractedSymbol>,
    b: Seq<ExtractedSymbol>,
    ranges: Seq<LineRange>,
)
    ensures
        forall|i: int|
            0 <= i < removed_positions(head, b, ranges).len() ==> 0 <= #[trigger] removed_positions(
                head,
                b,
                ranges,
            )[i] < b.len(),
    decreases b.len(),
{
    if b.len() > 0 {
        lemma_removed_positions_bound(head, b.drop_last(), ranges);
        let prev = removed_positions(head, b.drop_last(), ranges);
        let r = removed_positions(head, b, ranges);
        assert forall|i: int| 0 <= i < r.len() implies 0 <= #[trigger] r[i] < b.len() by {
            if i < prev.len() {
                assert(r[i] == prev[i]);
            }
        }
    }
}

fn same_container(a: &Option<String>, b: &Option<String>) -> (r: bool)
    ensures
        r == (opt_view(*a) == opt_view(*b)),
{
    match (a, b) {
        (Some(x), Some(y)) => *x == *y,
        (None, None) => true,
        _ => false,
    }
}

fn find_last_identity(base: &[ExtractedSymbol], name: &String, container: &Option<String>) -> (r: Option<usize>)
    ensures
        match r {
            Some(k) => last_with_identity(base@, (name@, opt_view(*container))) == Some(k as int),
            None => last_with_identity(base@, (name@, opt_view(*container))) is None,
        },
{
    let ghost id = (name@, opt_view(*container));
    let mut k = base.len();
    assert(base@.take(k as int) =~= base@);
    while k > 0
        invariant
            k <= base@.len(),
            id == (name@, opt_view(*container)),
            last_with_identity(base@, id) == last_with_identity(base@.take(k as int), id),
        decreases k,
    {
        assert(base@.take(k as int).drop_last() =~= base@.take(k - 1));
        assert(base@.take(k as int).last() == base@[k - 1]);
        if base[k - 1].name == *name && same_container(&base[k - 1].container, container) {
            return Some(k - 1);
        }
        k -= 1;
    }
    None
}

fn head_has_identity_exec(head: &Vec<ExtractedSymbol>, name: &String, container: &Option<String>) -> (r: bool)
    ensures
        r == head_has_identity(head@, (name@, opt_view(*container))),
{
    let mut i: usize = 0;
    while i < head.len()
        invariant
            i <= head@.len(),
            forall|j: int| 0 <= j < i ==> identity(#[trigger] head@[j]) != (name@, opt_view(*container)),
        decreases head.len() - i,
    {
        if head[i].name == *name && same_container(&head[i].container, container) {
            assert(identity(head@[i as int]) == (name@, opt_view(*container)));
            return true;
        }
        i += 1;
    }
    false
}

/// Classifies every head symbol by contract impact against the same
/// file's base-side symbols, matched by name and container (see
/// [`classified`]), and returns the base symbols that no longer exist on
/// the head side and whose range overlaps `old_changed_ranges`, reported
/// under `path`, in base order.
pub fn classify_symbols(
    head_symbols: &mut Vec<ExtractedSymbol>,
    base_symbols: &[ExtractedSymbol],
    old_changed_ranges: &[LineRange],
    path: &str,
) -> (removed: Vec<RemovedSymbol>)
    ensures
        final(head_symbols)@.len() == old(head_symbols)@.len(),
        forall|i: int|
            0 <= i < old(head_symbols)@.len() ==> #[trigger] final(head_symbols)@[i] == classified(
                old(head_symbols)@[i],
                base_symbols@,
            ),
        removed@.len() == removed_positions(
            old(head_symbols)@,
            base_symbols@,
            old_changed_ranges@,
        ).len(),
        forall|i: int|
            0 <= i < removed@.len() ==> {
                let b = base_symbols@[removed_positions(
                    old(head_symbols)@,
                    base_symbols@,
                    old_changed_ranges@,
                )[i]];
                &&& (#[trigger] removed@[i]).name == b.name
                &&& removed@[i].kind == b.kind
                &&& removed@[i].signature == b.signature
                &&& removed@[i].path@ == path@
            },
{
    let ghost old_head = head_symbols@;
    let mut i: usize = 0;
    while i < head_symbols.len()
        invariant
            head_symbols@.len() == old_head.len(),
            i <= old_head.len(),
            forall|j: int| 0 <= j < i ==> #[trigger] head_symbols@[j] == classified(old_head[j], base_symbols@),
            forall|j: int| i <= j < old_head.len() ==> #[trigger] head_symbols@[j] == old_head[j],
        decreases old_head.len() - i,
    {
        let found = find_last_identity(base_symbols, &head_symbols[i].name, &head_symbols[i].container);
        proof {
            lemma_last_with_identity(base_symbols@, identity(old_head[i as int]));
        }
        match found {
            None => {
                head_symbols[i].classification = Some(Classification::Added);
            },
            Some(k) => {
                if same_signature(&base_symbols[k].signature, &head_symbols[i].signature) {
                    head_symbols[i].classification = Some(Classification::BodyOnly);
                } else {
                    head_symbols[i].classification = Some(Classification::SignatureChanged);
                    head_symbols[i].previous_signature = Some(base_symbols[k].signature.clone());
                }
            },
        }
        i += 1;
    }
    assert forall|j: int| 0 <= j < old_head.len() implies identity(#[trigger] head_symbols@[j]) == identity(
        old_head[j],
    ) by {
        assert(head_symbols@[j] == classified(old_head[j], base_symbols@));
    }
    let mut removed: Vec<RemovedSymbol> = Vec::new();
    let mut k: usize = 0;
    while k < base_symbols.len()
        invariant
            k <= base_symbols@.len(),
            head_symbols@.len() == old_head.len(),
            forall|j: int| 0 <= j < old_head.len() ==> identity(#[trigger] head_symbols@[j]) == identity(old_head[j]),
            removed@.len() == removed_positions(old_head, base_symbols@.take(k as int), old_changed_ranges@).len(),
            forall|q: int|
                0 <= q < removed@.len() ==> {
                    let b = base_symbols@[removed_positions(
                        old_head,
                        base_symbols@.take(k as int),
                        old_changed_ranges@,
                    )[q]];
                    &&& (#[trigger] removed@[q]).name == b.name
                    &&& removed@[q].kind == b.kind
                    &&& removed@[q].signature == b.signature
                    &&& removed@[q].path@ == path@
                },
        decreases base_symbols.len() - k,
    {
        let ghost bk = base_symbols@.take(k as int);
        let ghost bk1 = base_symbols@.take(k + 1);
        assert(bk1.drop_last() =~= bk);
        assert(bk1.last() == base_symbols@[k as int]);
        proof {
            lemma_removed_positions_bound(old_head, bk, old_changed_ranges@);
        }
        let b = &base_symbols[k];
        let present = head_has_identity_exec(head_symbols, &b.name, &b.container);
        assert(present == head_has_identity(old_head, identity(base_symbols@[k as int]))) by {
            if present {
                let j = choose|j: int| 0 <= j < head_symbols@.len() && identity(#[trigger] head_symbols@[j]) == identity(base_symbols@[k as int]);
                assert(identity(old_head[j]) == identity(head_symbols@[j]));
            } else {
                assert forall|j: int| 0 <= j < old_head.len() implies identity(#[trigger] old_head[j]) != identity(base_symbols@[k as int]) by {
                    assert(identity(head_symbols@[j]) == identity(old_head[j]));
                }
            }
        }
        if !present && overlaps_any(b.range, old_changed_ranges) {
            removed.push(
                RemovedSymbol {
                    name: b.name.clone(),
                    kind: b.kind,
                    path: crate::text::chars_to_string(crate::text::str_to_chars(path).as_slice()),
                    signature: b.signature.clone(),
                },
            );
        }
        assert forall|q: int| 0 <= q < removed_positions(old_head, bk, old_changed_ranges@).len() implies
            removed_positions(old_head, bk1, old_changed_ranges@)[q] == #[trigger] removed_positions(
            old_head,
            bk,
            old_changed_ranges@,
        )[q] by {}
        k += 1;
    }
    assert(base_symbols@.take(k as int) =~= base_symbols@);
    removed
}

// ---------------------------------------------------------------------
// Text helpers shared by the extractors.
// ---------------------------------------------------------------------

/// Whether `name` is too generic to be worth resolving: `_` or any other
/// single-character (or empty) identifier.
pub fn is_noise_name(name: &str) -> (r: bool)
    ensures
        r == (name@.len() <= 1),
{
    let chars = crate::text::str_to_chars(name);
    chars.len() <= 1
}

/// `char::is_whitespace`: the Unicode `White_Space` characters.
pub open spec fn is_ws(c: char) -> bool {
    ('\u{9}' <= c && c <= '\u{d}') || c == ' ' || c == '\u{85}' || c == '\u{a0}' || c == '\u{1680}'
        || ('\u{2000}' <= c && c <= '\u{200a}') || c == '\u{2028}' || c == '\u{2029}' || c
        == '\u{202f}' || c == '\u{205f}' || c == '\u{3000}'
}

/// The maximal runs of non-whitespace characters of `s`, in order
/// (`str::split_whitespace`).
pub open spec fn words(s: Seq<char>) -> Seq<Seq<char>>
    decreases s.len(),
{
    if s.len() == 0 {
        seq![]
    } else {
        let prev = words(s.drop_last());
        let c = s.last();
        if is_ws(c) {
            prev
        } else if s.len() == 1 || is_ws(s[s.len() - 2]) {
            prev.push(seq![c])
        } else {
            prev.update(prev.len() - 1, prev.last().push(c))
        }
    }
}

/// `ws` joined by single spaces.
pub open spec fn join_spaced(ws: Seq<Seq<char>>) -> Seq<char>
    decreases ws.len(),
{
    if ws.len() == 0 {
        seq![]
    } else if ws.len() == 1 {
        ws[0]
    } else {
        join_spaced(ws.drop_last()) + seq![' '] + ws.last()
    }
}

proof fn lemma_words_nonempty(s: Seq<char>)
    requires
        s.len() > 0,
        !is_ws(s.last()),
    ensures
        words(s).len() > 0,
    decreases s.len(),
{
    if s.len() > 1 && !is_ws(s[s.len() - 2]) {
        assert(s.drop_last().last() == s[s.len() - 2]);
        lemma_words_nonempty(s.drop_last());
    }
}

/// Collapses runs of whitespace into single spaces and trims both ends.
pub fn normalize_whitespace(text: &str) -> (r: String)
    ensures
        r@ == join_spaced(words(text@)),
{
    let s = crate::text::str_to_chars(text);
    let mut out: Vec<char> = Vec::new();
    let mut i: usize = 0;
    while i < s.len()
        invariant
            i <= s@.len(),
            s@ == text@,
            out@ == join_spaced(words(s@.take(i as int))),
        decreases s.len() - i,
    {
        let ghost pre = s@.take(i as int);
        let ghost next = s@.take(i + 1);
        assert(next.drop_last() =~= pre);
        let c = s[i];
        if !is_whitespace(c) {
            if i > 0 && !is_whitespace(s[i - 1]) {
                proof {
                    assert(pre.last() == s@[i - 1]);
                    lemma_words_nonempty(pre);
                    let ws = words(pre);
                    let w2 = ws.update(ws.len() - 1, ws.last().push(c));
                    assert(w2.drop_last() =~= ws.drop_last());
                    if ws.len() > 1 {
                        assert(join_spaced(w2) =~= join_spaced(ws).push(c));
                    } else {
                        assert(join_spaced(w2) =~= join_spaced(ws).push(c));
                    }
                }
                out.push(c);
            } else {
                proof {
                    let ws = words(pre);
                    assert(ws.push(seq![c]).drop_last() =~= ws);
                }
                if out.len() > 0 {
                    out.push(' ');
                }
                proof {
                    let ws = words(pre);
                    if ws.len() == 0 {
                        assert(out@.len() == 0);
                    } else {
                        lemma_words_nonempty_each(pre);
                        lemma_join_spaced_nonempty(ws);
                    }
                }
                out.push(c);
                assert(out@ =~= join_spaced(words(next)));
            }
        }
        i += 1;
    }
    assert(s@.take(i as int) =~= s@);
    crate::text::chars_to_string(out.as_slice())
}

proof fn lemma_words_nonempty_each(s: Seq<char>)
    ensures
        forall|i: int| 0 <= i < words(s).len() ==> #[trigger] words(s)[i].len() > 0,
    decreases s.len(),
{
    if s.len() > 0 {
        lemma_words_nonempty_each(s.drop_last());
        let prev = words(s.drop_last());
        let w = words(s);
        let c = s.last();
        if is_ws(c) {
        } else if s.len() == 1 || is_ws(s[s.len() - 2]) {
            assert forall|i: int| 0 <= i < w.len() implies #[trigger] w[i].len() > 0 by {
                if i < prev.len() {
                    assert(w[i] == prev[i]);
                }
            }
        } else {
            assert(s.drop_last().last() == s[s.len() - 2]);
            lemma_words_nonempty(s.drop_last());
            assert forall|i: int| 0 <= i < w.len() implies #[trigger] w[i].len() > 0 by {
                if i < prev.len() - 1 {
                    assert(w[i] == prev[i]);
                }
            }
        }
    }
}

proof fn lemma_join_spaced_nonempty(ws: Seq<Seq<char>>)
    requires
        ws.len() > 0,
        forall|i: int| 0 <= i < ws.len() ==> #[trigger] ws[i].len() > 0,
    ensures
        join_spaced(ws).len() > 0,
    decreases ws.len(),
{
    if ws.len() > 1 {
        lemma_join_spaced_nonempty(ws.drop_last());
    }
}

/// No character of `w` is whitespace.
pub open spec fn no_ws(w: Seq<char>) -> bool {
    forall|j: int| 0 <= j < w.len() ==> !is_ws(#[trigger] w[j])
}

proof fn lemma_words_no_ws(s: Seq<char>)
    ensures
        forall|i: int| 0 <= i < words(s).len() ==> no_ws(#[trigger] words(s)[i]),
    decreases s.len(),
{
    if s.len() > 0 {
        lemma_words_no_ws(s.drop_last());
        let prev = words(s.drop_last());
        let w = words(s);
        let c = s.last();
        if is_ws(c) {
        } else if s.len() == 1 || is_ws(s[s.len() - 2]) {
            assert forall|i: int| 0 <= i < w.len() implies no_ws(#[trigger] w[i]) by {
                if i < prev.len() {
                    assert(w[i] == prev[i]);
                }
            }
        } else {
            assert(s.drop_last().last() == s[s.len() - 2]);
            lemma_words_nonempty(s.drop_last());
            assert forall|i: int| 0 <= i < w.len() implies no_ws(#[trigger] w[i]) by {
                if i < prev.len() - 1 {
                    assert(w[i] == prev[i]);
                } else {
                    assert(w[i] == prev.last().push(c));
                    assert(no_ws(prev[prev.len() - 1]));
                }
            }
        }
    }
}

proof fn lemma_words_word_after(a: Seq<char>, sep: bool, b: Seq<char>)
    requires
        b.len() > 0,
        no_ws(b),
        !sep ==> a.len() == 0,
    ensures
        words((if sep { a + seq![' '] } else { a }) + b) == words(a).push(b),
    decreases b.len(),
{
    let pre = if sep { a + seq![' '] } else { a };
    let s = pre + b;
    let c = b.last();
    assert(!is_ws(c));
    assert(s.last() == c);
    assert(s.drop_last() =~= pre + b.drop_last());
    if sep {
        assert(pre.drop_last() =~= a);
        assert(words(pre) == words(a));
    }
    if b.len() == 1 {
        assert(s.drop_last() =~= pre);
        assert(b =~= seq![c]);
        if sep {
            assert(s[s.len() - 2] == ' ');
        } else {
            assert(s.len() == 1);
        }
        assert(words(s) == words(s.drop_last()).push(seq![c]));
        assert(words(s.drop_last()) == words(a));
    } else {
        let b1 = b.drop_last();
        assert(no_ws(b1)) by {
            assert forall|j: int| 0 <= j < b1.len() implies !is_ws(#[trigger] b1[j]) by {
                assert(b1[j] == b[j]);
            }
        }
        lemma_words_word_after(a, sep, b1);
        assert(s[s.len() - 2] == b[b.len() - 2]);
        assert(words(s) =~= words(a).push(b1).update(words(a).len() as int, b1.push(c)));
        assert(b1.push(c) =~= b);
        assert(words(s) =~= words(a).push(b));
    }
}

proof fn lemma_words_of_join(ws: Seq<Seq<char>>)
    requires
        forall|i: int| 0 <= i < ws.len() ==> #[trigger] ws[i].len() > 0,
        forall|i: int| 0 <= i < ws.len() ==> no_ws(#[trigger] ws[i]),
    ensures
        words(join_spaced(ws)) == ws,
    decreases ws.len(),
{
    if ws.len() == 0 {
    } else if ws.len() == 1 {
        lemma_words_word_after(seq![], false, ws[0]);
        assert(Seq::<char>::empty() + ws[0] =~= ws[0]);
        assert(words(Seq::<char>::empty()) =~= Seq::<Seq<char>>::empty());
        assert(Seq::<Seq<char>>::empty().push(ws[0]) =~= ws);
    } else {
        let init = ws.drop_last();
        assert forall|i: int| 0 <= i < init.len() implies #[trigger] init[i].len() > 0 by {
            assert(init[i] == ws[i]);
        }
        assert forall|i: int| 0 <= i < init.len() implies no_ws(#[trigger] init[i]) by {
            assert(init[i] == ws[i]);
        }
        lemma_words_of_join(init);
        lemma_words_word_after(join_spaced(init), true, ws.last());
        assert(init.push(ws.last()) =~= ws);
    }
}

/// Normalizing whitespace twice changes nothing more than normalizing it
/// once.
pub proof fn law_normalize_whitespace_idempotent(s: Seq<char>)
    ensures
        join_spaced(words(join_spaced(words(s)))) == join_spaced(words(s)),
{
    lemma_words_nonempty_each(s);
    lemma_words_no_ws(s);
    lemma_words_of_join(words(s));
}

/// `char::is_whitespace`.
pub fn is_whitespace(c: char) -> (r: bool)
    ensures
        r == is_ws(c),
{
    ('\u{9}' <= c && c <= '\u{d}') || c == ' ' || c == '\u{85}' || c == '\u{a0}' || c == '\u{1680}'
        || ('\u{2000}' <= c && c <= '\u{200a}') || c == '\u{2028}' || c == '\u{2029}' || c
        == '\u{202f}' || c == '\u{205f}' || c == '\u{3000}'
}

// ---------------------------------------------------------------------
// Method names too common to resolve.
// ---------------------------------------------------------------------

/// Method names of std traits and ubiquitous std idioms: a receiver-based
/// call to one of them is left unresolved, since under name-only
/// resolution it would link every such call to every same-named changed
/// symbol.
pub open spec fn ubiquitous_method_names() -> Seq<Seq<char>> {
    seq![
        "all"@,
        "and_then"@,
        "any"@,
        "as_bytes"@,
        "as_mut"@,
        "as_ref"@,
        "as_slice"@,
        "as_str"@,
        "borrow"@,
        "borrow_mut"@,
        "chain"@,
        "clear"@,
        "clone"@,
        "cloned"@,
        "cmp"@,
        "collect"@,
        "contains"@,
        "contains_key"@,
        "copied"@,
        "count"@,
        "default"@,
        "deref"@,
        "drop"@,
        "entry"@,
        "enumerate"@,
        "eq"@,
        "err"@,
        "expect"@,
        "extend"@,
        "filter"@,
        "filter_map"@,
        "find"@,
        "flat_map"@,
        "flatten"@,
        "flush"@,
        "fmt"@,
        "fold"@,
        "for_each"@,
        "from"@,
        "get"@,
        "get_mut"@,
        "hash"@,
        "insert"@,
        "into"@,
        "into_iter"@,
        "is_empty"@,
        "is_err"@,
        "is_none"@,
        "is_ok"@,
        "is_some"@,
        "iter"@,
        "iter_mut"@,
        "join"@,
        "keys"@,
        "len"@,
        "map"@,
        "map_err"@,
        "max"@,
        "min"@,
        "ne"@,
        "next"@,
        "ok"@,
        "or_else"@,
        "parse"@,
        "partial_cmp"@,
        "pop"@,
        "position"@,
        "push"@,
        "read"@,
        "remove"@,
        "replace"@,
        "rev"@,
        "skip"@,
        "sort"@,
        "sort_by"@,
        "sort_by_key"@,
        "split"@,
        "starts_with"@,
        "sum"@,
        "take"@,
        "to_owned"@,
        "to_string"@,
        "to_vec"@,
        "trim"@,
        "try_from"@,
        "try_into"@,
        "unwrap"@,
        "unwrap_or"@,
        "unwrap_or_default"@,
        "unwrap_or_else"@,
        "values"@,
        "write"@,
        "zip"@
    ]
}

fn ubiquitous_method_name_list() -> (r: Vec<&'static str>)
    ensures
        r@.len() == ubiquitous_method_names().len(),
        forall|i: int| 0 <= i < r@.len() ==> #[trigger] r@[i]@ == ubiquitous_method_names()[i],
{
    vec![
        "all",
        "and_then",
        "any",
        "as_bytes",
        "as_mut",
        "as_ref",
        "as_slice",
        "as_str",
        "borrow",
        "borrow_mut",
        "chain",
        "clear",
        "clone",
        "cloned",
        "cmp",
        "collect",
        "contains",
        "contains_key",
        "copied",
        "count",
        "default",
        "deref",
        "drop",
        "entry",
        "enumerate",
        "eq",
        "err",
        "expect",
        "extend",
        "filter",
        "filter_map",
        "find",
        "flat_map",
        "flatten",
        "flush",
        "fmt",
        "fold",
        "for_each",
        "from",
        "get",
        "get_mut",
        "hash",
        "insert",
        "into",
        "into_iter",
        "is_empty",
        "is_err",
        "is_none",
        "is_ok",
        "is_some",
        "iter",
        "iter_mut",
        "join",
        "keys",
        "len",
        "map",
        "map_err",
        "max",
        "min",
        "ne",
        "next",
        "ok",
        "or_else",
        "parse",
        "partial_cmp",
        "pop",
        "position",
        "push",
        "read",
        "remove",
        "replace",
        "rev",
        "skip",
        "sort",
        "sort_by",
        "sort_by_key",
        "split",
        "starts_with",
        "sum",
        "take",
        "to_owned",
        "to_string",
        "to_vec",
        "trim",
        "try_from",
        "try_into",
        "unwrap",
        "unwrap_or",
        "unwrap_or_default",
        "unwrap_or_else",
        "values",
        "write",
        "zip"
    ]
}

/// Whether `name` is one of [`ubiquitous_method_names`].
pub fn is_ubiquitous_method_name(name: &str) -> (r: bool)
    ensures
        r == ubiquitous_method_names().contains(name@),
{
    let list = ubiquitous_method_name_list();
    let target = crate::text::str_to_chars(name);
    let mut i: usize = 0;
    while i < list.len()
        invariant
            i <= list@.len(),
            list@.len() == ubiquitous_method_names().len(),
            forall|j: int| 0 <= j < list@.len() ==> #[trigger] list@[j]@ == ubiquitous_method_names()[j],
            target@ == name@,
            forall|j: int| 0 <= j < i ==> ubiquitous_method_names()[j] != name@,
        decreases list.len() - i,
    {
        let candidate = crate::text::str_to_chars(list[i]);
        if crate::text::chars_eq(candidate.as_slice(), target.as_slice()) {
            assert(ubiquitous_method_names()[i as int] == name@);
            return true;
        }
        i += 1;
    }
    false
}

// ---------------------------------------------------------------------
// Widening a byte range to its whole line.
// ---------------------------------------------------------------------

/// The start of the line holding position `i`: just past the last `\n`
/// before it, or 0.
pub open spec fn line_start(src: Seq<u8>, i: int) -> int
    decreases i,
{
    if i <= 0 {
        0
    } else if src[i - 1] == 10 {
        i
    } else {
        line_start(src, i - 1)
    }
}

/// The position of the first `\n` at or after `i`, or the length.
pub open spec fn line_end(src: Seq<u8>, i: int) -> int
    decreases src.len() - i,
{
    if i >= src.len() {
        src.len() as int
    } else if src[i] == 10 {
        i
    } else {
        line_end(src, i + 1)
    }
}

/// Whether `src[a..b]` holds only spaces and tabs.
pub open spec fn all_blank(src: Seq<u8>, a: int, b: int) -> bool {
    forall|k: int| a <= k < b ==> #[trigger] src[k] == 32 || src[k] == 9
}

/// `start..end` widened to its whole line: back to the line's start when
/// only spaces and tabs precede it there, and forward past one `;` to the
/// line's end when only spaces and tabs follow.
pub open spec fn spec_widen(src: Seq<u8>, start: int, end: int) -> (int, int) {
    let ls = line_start(src, start);
    let new_start = if all_blank(src, ls, start) {
        ls
    } else {
        start
    };
    let after = if end < src.len() && src[end] == 59 {
        end + 1
    } else {
        end
    };
    let le = line_end(src, after);
    let new_end = if all_blank(src, after, le) {
        le
    } else {
        end
    };
    (new_start, new_end)
}

proof fn lemma_line_start(src: Seq<u8>, i: int)
    requires
        0 <= i <= src.len(),
    ensures
        0 <= line_start(src, i) <= i,
    decreases i,
{
    if i > 0 && src[i - 1] != 10 {
        lemma_line_start(src, i - 1);
    }
}

proof fn lemma_line_end(src: Seq<u8>, i: int)
    requires
        0 <= i <= src.len(),
    ensures
        i <= line_end(src, i) <= src.len(),
    decreases src.len() - i,
{
    if i < src.len() && src[i] != 10 {
        lemma_line_end(src, i + 1);
    }
}

fn blank_between(src: &[u8], a: usize, b: usize) -> (r: bool)
    requires
        a <= b <= src@.len(),
    ensures
        r == all_blank(src@, a as int, b as int),
{
    let mut k = a;
    while k < b
        invariant
            a <= k <= b <= src@.len(),
            all_blank(src@, a as int, k as int),
        decreases b - k,
    {
        if src[k] != 32 && src[k] != 9 {
            return false;
        }
        k += 1;
    }
    true
}

/// Extends `range` to cover its whole source line; see [`spec_widen`].
/// Each side is widened independently.
pub fn widen_to_whole_line(range: std::ops::Range<usize>, source: &[u8]) -> (r: std::ops::Range<usize>)
    requires
        range.start <= range.end <= source@.len(),
    ensures
        (r.start as int, r.end as int) == spec_widen(source@, range.start as int, range.end as int),
{
    let mut ls = range.start;
    while ls > 0 && source[ls - 1] != 10
        invariant
            ls <= range.start <= source@.len(),
            line_start(source@, range.start as int) == line_start(source@, ls as int),
        decreases ls,
    {
        ls -= 1;
    }
    proof {
        lemma_line_start(source@, range.start as int);
    }
    let start = if blank_between(source, ls, range.start) {
        ls
    } else {
        range.start
    };
    let mut after = range.end;
    if after < source.len() && source[after] == 59 {
        after += 1;
    }
    let mut le = after;
    while le < source.len() && source[le] != 10
        invariant
            after <= le <= source@.len(),
            line_end(source@, after as int) == line_end(source@, le as int),
        decreases source.len() - le,
    {
        le += 1;
    }
    let end = if blank_between(source, after, le) {
        le
    } else {
        range.end
    };
    start..end
}

// ---------------------------------------------------------------------
// Law: signature comparison forgets whitespace only.
// ---------------------------------------------------------------------

/// The characters of `s` that are not whitespace, in order.
pub open spec fn without_whitespace(s: Seq<char>) -> Seq<char>
    decreases s.len(),
{
    if s.len() == 0 {
        seq![]
    } else if is_ws(s.last()) {
        without_whitespace(s.drop_last())
    } else {
        without_whitespace(s.drop_last()).push(s.last())
    }
}

proof fn lemma_fold_keeps_non_whitespace(s: Seq<char>, k: int)
    requires
        0 <= k <= s.len(),
    ensures
        without_whitespace(comparison_fold(s, k).0) == without_whitespace(s.take(k)),
    decreases k,
{
    if k == 0 {
        assert(s.take(0) =~= Seq::<char>::empty());
    } else {
        lemma_fold_keeps_non_whitespace(s, k - 1);
        assert(s.take(k).drop_last() =~= s.take(k - 1));
        assert(s.take(k).last() == s[k - 1]);
        let (out, pending, last) = comparison_fold(s, k - 1);
        let c = s[k - 1];
        if !is_ws(c) {
            assert(out.push(' ').drop_last() =~= out);
            assert(is_ws(' '));
            let spaced = match last {
                Some(l) => pending && is_word_char(l) && is_word_char(c),
                None => false,
            };
            let with_space = if spaced {
                out.push(' ')
            } else {
                out
            };
            assert(without_whitespace(with_space) == without_whitespace(out));
            assert(with_space.push(c).drop_last() =~= with_space);
        }
    }
}

/// Normalizing a signature for comparison changes nothing but its
/// whitespace: with all whitespace removed, the normalized text and the
/// original read the same.
pub proof fn law_comparison_forgets_only_whitespace(s: Seq<char>)
    ensures
        without_whitespace(comparable(s)) == without_whitespace(s),
{
    lemma_fold_keeps_non_whitespace(s, s.len() as int);
    assert(s.take(s.len() as int) =~= s);
}

/// Two signatures that compare equal differ only in whitespace, so a
/// signature change in any other character is never taken for a
/// body-only change.
pub proof fn law_equal_comparisons_differ_only_in_whitespace(a: Seq<char>, b: Seq<char>)
    requires
        comparable(a) == comparable(b),
    ensures
        without_whitespace(a) == without_whitespace(b),
{
    law_comparison_forgets_only_whitespace(a);
    law_comparison_forgets_only_whitespace(b);
}

proof fn lemma_fold_prefix(s1: Seq<char>, s2: Seq<char>, k: int)
    requires
        0 <= k <= s1.len(),
        k <= s2.len(),
        forall|i: int| 0 <= i < k ==> s1[i] == s2[i],
    ensures
        comparison_fold(s1, k) == comparison_fold(s2, k),
    decreases k,
{
    if k > 0 {
        lemma_fold_prefix(s1, s2, k - 1);
    }
}

proof fn lemma_fold_whitespace_tail(u: Seq<char>, w: Seq<char>, k: int)
    requires
        0 <= k <= w.len(),
        forall|i: int| 0 <= i < w.len() ==> is_ws(#[trigger] w[i]),
    ensures
        ({
            let f = comparison_fold(u + w, u.len() + k);
            let g = comparison_fold(u, u.len() as int);
            f.0 == g.0 && f.2 == g.2 && f.1 == (g.1 || k > 0)
        }),
    decreases k,
{
    if k == 0 {
        lemma_fold_prefix(u + w, u, u.len() as int);
    } else {
        lemma_fold_whitespace_tail(u, w, k - 1);
        assert((u + w)[u.len() + k - 1] == w[k - 1]);
    }
}

proof fn lemma_fold_last_word(a: Seq<char>)
    requires
        a.len() > 0,
        !is_ws(a.last()),
    ensures
        comparison_fold(a, a.len() as int).1 == false,
        comparison_fold(a, a.len() as int).2 == Some(a.last()),
{
}

proof fn lemma_fold_append(u: Seq<char>, b: Seq<char>, k: int)
    requires
        1 <= k <= b.len(),
        !is_ws(b[0]),
    ensures
        ({
            let g = comparison_fold(u, u.len() as int);
            let sp = match g.2 {
                Some(l) => g.1 && is_word_char(l) && is_word_char(b[0]),
                None => false,
            };
            let prefix = if sp {
                g.0.push(' ')
            } else {
                g.0
            };
            let f = comparison_fold(u + b, u.len() + k);
            let h = comparison_fold(b, k);
            f == (prefix + h.0, h.1, h.2)
        }),
    decreases k,
{
    let g = comparison_fold(u, u.len() as int);
    let sp = match g.2 {
        Some(l) => g.1 && is_word_char(l) && is_word_char(b[0]),
        None => false,
    };
    let prefix = if sp {
        g.0.push(' ')
    } else {
        g.0
    };
    assert((u + b)[u.len() + k - 1] == b[k - 1]);
    if k == 1 {
        lemma_fold_prefix(u + b, u, u.len() as int);
        let h = comparison_fold(b, 1);
        assert(comparison_fold(b, 0) == (Seq::<char>::empty(), false, None::<char>));
        assert(Seq::<char>::empty().push(b[0]) =~= seq![b[0]]);
        assert(h.0 =~= seq![b[0]]);
        assert(prefix.push(b[0]) =~= prefix + seq![b[0]]);
    } else {
        lemma_fold_append(u, b, k - 1);
        let h0 = comparison_fold(b, k - 1);
        let c = b[k - 1];
        if !is_ws(c) {
            assert((prefix + h0.0).push(' ') =~= prefix + h0.0.push(' '));
            assert((prefix + h0.0).push(c) =~= prefix + h0.0.push(c));
            assert((prefix + h0.0.push(' ')).push(c) =~= prefix + h0.0.push(' ').push(c));
        }
    }
}

/// Whitespace between two words of a signature is kept as one space,
/// while whitespace next to punctuation is dropped: comparing forgets how
/// a signature is spaced or reflowed, never where one word ends and the
/// next begins.
pub proof fn law_comparison_keeps_words_apart(a: Seq<char>, w: Seq<char>, b: Seq<char>)
    requires
        a.len() > 0,
        !is_ws(a.last()),
        w.len() > 0,
        forall|i: int| 0 <= i < w.len() ==> is_ws(#[trigger] w[i]),
        b.len() > 0,
        !is_ws(b[0]),
    ensures
        is_word_char(a.last()) && is_word_char(b[0]) ==> comparable(a + w + b) == comparable(a) + seq![' ']
            + comparable(b),
        !(is_word_char(a.last()) && is_word_char(b[0])) ==> comparable(a + w + b) == comparable(a) + comparable(
            b,
        ),
{
    let u = a + w;
    lemma_fold_whitespace_tail(a, w, w.len() as int);
    lemma_fold_last_word(a);
    lemma_fold_append(u, b, b.len() as int);
    assert(u + b =~= a + w + b);
    assert(u.len() + b.len() == (a + w + b).len());
}

/// How a head symbol is classified against the base side: `Added` when
/// no base symbol shares its identity; `BodyOnly` only when a base symbol
/// of its identity has a signature differing from its own in whitespace
/// alone; and a signature that differs in any other character is
/// `SignatureChanged`, keeping that base signature as the previous one.
pub proof fn law_classification_reflects_signature_text(head: ExtractedSymbol, base: Seq<ExtractedSymbol>)
    ensures
        ({
            let c = classified(head, base);
            &&& c.name == head.name
            &&& c.signature == head.signature
            &&& c.classification == Some(Classification::Added) <==> forall|j: int|
                0 <= j < base.len() ==> identity(#[trigger] base[j]) != identity(head)
            &&& c.classification == Some(Classification::BodyOnly) ==> exists|k: int|
                0 <= k < base.len() && identity(#[trigger] base[k]) == identity(head) && without_whitespace(
                    base[k].signature@,
                ) == without_whitespace(head.signature@)
            &&& c.classification == Some(Classification::SignatureChanged) ==> exists|k: int|
                0 <= k < base.len() && identity(#[trigger] base[k]) == identity(head) && c.previous_signature
                    == Some(base[k].signature)
            &&& (exists|k: int|
                0 <= k < base.len() && identity(#[trigger] base[k]) == identity(head)) && (forall|k: int|
                0 <= k < base.len() && identity(#[trigger] base[k]) == identity(head) ==> without_whitespace(
                    base[k].signature@,
                ) != without_whitespace(head.signature@)) ==> c.classification == Some(
                Classification::SignatureChanged,
            )
        }),
{
    lemma_last_with_identity(base, identity(head));
    match last_with_identity(base, identity(head)) {
        Some(k) => {
            if comparable(base[k].signature@) == comparable(head.signature@) {
                law_equal_comparisons_differ_only_in_whitespace(base[k].signature@, head.signature@);
            }
        },
        None => {},
    }
}

} // verus!
