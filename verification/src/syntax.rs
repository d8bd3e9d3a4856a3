//! What the symbol extractor decides from plain values read off syntax
//! nodes: the symbol kind of a node kind, where a definition's body lies,
//! how a container is labelled, a text with ranges cut out of it, and how
//! referenced names are tidied.
use vstd::prelude::*;

use crate::extract::{is_noise_name, SymbolKind};
use crate::sort::{lemma_sort_seq_permutation, lemma_sort_seq_sorted, is_sorted, lex_le, sort_seq, stable_sort, SortKey};
use crate::text::{chars_eq, str_to_chars};

verus! {

// ---------------------------------------------------------------------
// Node kinds.
// ---------------------------------------------------------------------

/// The symbol kind a captured definition node reports, from its node kind
/// and, for a Go `type_spec`, the kind of its `type` child. Kind names are
/// unique across the supported grammars.
pub open spec fn spec_symbol_kind(kind: Seq<char>, type_child: Option<Seq<char>>) -> Option<SymbolKind> {
    if kind == "function_item"@ || kind == "function_signature_item"@ {
        Some(SymbolKind::Function)
    } else if kind == "struct_item"@ {
        Some(SymbolKind::Struct)
    } else if kind == "enum_item"@ {
        Some(SymbolKind::Enum)
    } else if kind == "trait_item"@ {
        Some(SymbolKind::Trait)
    } else if kind == "type_spec"@ {
        match type_child {
            Some(t) => if t == "struct_type"@ {
                Some(SymbolKind::Struct)
            } else if t == "interface_type"@ {
                Some(SymbolKind::Interface)
            } else {
                None
            },
            None => None,
        }
    } else if kind == "function_declaration"@ || kind == "method_declaration"@ {
        Some(SymbolKind::Function)
    } else if kind == "class_definition"@ {
        Some(SymbolKind::Class)
    } else if kind == "function_definition"@ {
        Some(SymbolKind::Function)
    } else if kind == "interface_declaration"@ {
        Some(SymbolKind::Interface)
    } else if kind == "type_alias_declaration"@ {
        Some(SymbolKind::TypeAlias)
    } else if kind == "class_declaration"@ || kind == "abstract_class_declaration"@ {
        Some(SymbolKind::Class)
    } else if kind == "method_definition"@ || kind == "abstract_method_signature"@ {
        Some(SymbolKind::Function)
    } else if kind == "enum_declaration"@ {
        Some(SymbolKind::Enum)
    } else if kind == "variable_declarator"@ {
        Some(SymbolKind::Function)
    } else {
        None
    }
}

fn is(kind: &str, name: &str) -> (r: bool)
    ensures
        r == (kind@ == name@),
{
    let a = str_to_chars(kind);
    let b = str_to_chars(name);
    chars_eq(a.as_slice(), b.as_slice())
}

/// Maps a captured definition node to its [`SymbolKind`]; see
/// [`spec_symbol_kind`].
pub fn symbol_kind(kind: &str, type_child: Option<&str>) -> (r: Option<SymbolKind>)
    ensures
        r == spec_symbol_kind(
            kind@,
            match type_child {
                Some(t) => Some(t@),
                None => None,
            },
        ),
{
    if is(kind, "function_item") || is(kind, "function_signature_item") {
        Some(SymbolKind::Function)
    } else if is(kind, "struct_item") {
        Some(SymbolKind::Struct)
    } else if is(kind, "enum_item") {
        Some(SymbolKind::Enum)
    } else if is(kind, "trait_item") {
        Some(SymbolKind::Trait)
    } else if is(kind, "type_spec") {
        match type_child {
            Some(t) => if is(t, "struct_type") {
                Some(SymbolKind::Struct)
            } else if is(t, "interface_type") {
                Some(SymbolKind::Interface)
            } else {
                None
            },
            None => None,
        }
    } else if is(kind, "function_declaration") || is(kind, "method_declaration") {
        Some(SymbolKind::Function)
    } else if is(kind, "class_definition") {
        Some(SymbolKind::Class)
    } else if is(kind, "function_definition") {
        Some(SymbolKind::Function)
    } else if is(kind, "interface_declaration") {
        Some(SymbolKind::Interface)
    } else if is(kind, "type_alias_declaration") {
        Some(SymbolKind::TypeAlias)
    } else if is(kind, "class_declaration") || is(kind, "abstract_class_declaration") {
        Some(SymbolKind::Class)
    } else if is(kind, "method_definition") || is(kind, "abstract_method_signature") {
        Some(SymbolKind::Function)
    } else if is(kind, "enum_declaration") {
        Some(SymbolKind::Enum)
    } else if is(kind, "variable_declarator") {
        Some(SymbolKind::Function)
    } else {
        None
    }
}

/// Where a definition's body lies, for slicing its signature.
#[derive(Debug, Clone, Copy, PartialEq, Eq, Structural)]
pub enum BodyPlace {
    /// A class: the whole text is kept, with nested method bodies cut.
    ClassMembers,
    /// The body is the definition's own `body` field.
    BodyField,
    /// The body is the `body` field of the definition's `value` field (a
    /// TypeScript arrow function bound to a name).
    ValueBodyField,
    /// Nothing is cut: the whole definition is its surface.
    Whole,
}

/// Where the body of a definition of node kind `kind` lies.
pub open spec fn spec_body_place(kind: Seq<char>) -> BodyPlace {
    if kind == "class_definition"@ || kind == "class_declaration"@ || kind
        == "abstract_class_declaration"@ {
        BodyPlace::ClassMembers
    } else if kind == "variable_declarator"@ {
        BodyPlace::ValueBodyField
    } else if kind == "function_item"@ || kind == "function_declaration"@ || kind
        == "method_declaration"@ || kind == "function_definition"@ || kind == "method_definition"@ {
        BodyPlace::BodyField
    } else {
        BodyPlace::Whole
    }
}

/// Decides where the body of a definition lies; see [`spec_body_place`].
pub fn body_place(kind: &str) -> (r: BodyPlace)
    ensures
        r == spec_body_place(kind@),
{
    if is(kind, "class_definition") || is(kind, "class_declaration") || is(
        kind,
        "abstract_class_declaration",
    ) {
        BodyPlace::ClassMembers
    } else if is(kind, "variable_declarator") {
        BodyPlace::ValueBodyField
    } else if is(kind, "function_item") || is(kind, "function_declaration") || is(
        kind,
        "method_declaration",
    ) || is(kind, "function_definition") || is(kind, "method_definition") {
        BodyPlace::BodyField
    } else {
        BodyPlace::Whole
    }
}

// ---------------------------------------------------------------------
// Containers.
// ---------------------------------------------------------------------

/// The container an enclosing node of kind `kind` names, given the text
/// it is named by (an impl's type, a trait's or class's name): `Some` for
/// a container kind, `None` for any other kind.
pub open spec fn spec_container_label(kind: Seq<char>, text: Seq<char>) -> Option<Seq<char>> {
    if kind == "impl_item"@ {
        Some("impl "@ + text)
    } else if kind == "trait_item"@ {
        Some("trait "@ + text)
    } else if kind == "class_definition"@ || kind == "class_declaration"@ || kind
        == "abstract_class_declaration"@ {
        Some("class "@ + text)
    } else {
        None
    }
}

/// Whether a node kind encloses its members as a container.
pub fn is_container_kind(kind: &str) -> (r: bool)
    ensures
        r == spec_container_label(kind@, seq![]) is Some,
{
    is(kind, "impl_item") || is(kind, "trait_item") || is(kind, "class_definition") || is(
        kind,
        "class_declaration",
    ) || is(kind, "abstract_class_declaration")
}

fn prefixed(prefix: &str, text: &str) -> (r: String)
    ensures
        r@ == prefix@ + text@,
{
    let mut chars = str_to_chars(prefix);
    crate::text::push_str_chars(text, &mut chars);
    crate::text::chars_to_string(chars.as_slice())
}

/// The descriptive container name for an enclosing node: `impl {type}`,
/// `trait {name}` or `class {name}`; see [`spec_container_label`].
pub fn container_label(kind: &str, text: &str) -> (r: Option<String>)
    ensures
        match r {
            Some(s) => spec_container_label(kind@, text@) == Some(s@),
            None => spec_container_label(kind@, text@) is None,
        },
{
    if is(kind, "impl_item") {
        Some(prefixed("impl ", text))
    } else if is(kind, "trait_item") {
        Some(prefixed("trait ", text))
    } else if is(kind, "class_definition") || is(kind, "class_declaration") || is(
        kind,
        "abstract_class_declaration",
    ) {
        Some(prefixed("class ", text))
    } else {
        None
    }
}

/// `s` without its leading `*` characters.
pub open spec fn trim_leading_stars(s: Seq<char>) -> Seq<char>
    decreases s.len(),
{
    if s.len() > 0 && s[0] == '*' {
        trim_leading_stars(s.skip(1))
    } else {
        s
    }
}

/// A Go receiver's type name with the pointer marks dropped, so `*Repo`
/// and `Repo` both name `Repo`.
pub fn receiver_type_name(type_text: &str) -> (r: String)
    ensures
        r@ == trim_leading_stars(type_text@),
{
    let s = str_to_chars(type_text);
    let mut i: usize = 0;
    assert(s@.skip(0) =~= s@);
    while i < s.len() && s[i] == '*'
        invariant
            i <= s@.len(),
            trim_leading_stars(s@) == trim_leading_stars(s@.skip(i as int)),
        decreases s.len() - i,
    {
        assert(s@.skip(i as int).skip(1) =~= s@.skip(i + 1));
        i += 1;
    }
    let mut out: Vec<char> = Vec::new();
    let start = i;
    while i < s.len()
        invariant
            start <= i <= s@.len(),
            out@ == s@.subrange(start as int, i as int),
        decreases s.len() - i,
    {
        out.push(s[i]);
        i += 1;
        assert(out@ =~= s@.subrange(start as int, i as int));
    }
    assert(s@.skip(start as int) =~= s@.subrange(start as int, s.len() as int));
    if start < s.len() {
        assert(s@.skip(start as int)[0] == s@[start as int]);
    }
    crate::text::chars_to_string(out.as_slice())
}

// ---------------------------------------------------------------------
// Cutting byte ranges out of a node's text.
// ---------------------------------------------------------------------

/// A range of positions in a text, ordered by where it starts.
#[derive(Debug, Clone, Copy, PartialEq, Eq, Structural)]
pub struct Cut {
    pub start: usize,
    pub end: usize,
}

impl SortKey for Cut {
    open spec fn key_le(self, other: Self) -> bool {
        self.start <= other.start
    }

    proof fn lemma_key_total(a: Self, b: Self) {
    }

    proof fn lemma_key_trans(a: Self, b: Self, c: Self) {
    }

    fn le(&self, other: &Self) -> (r: bool) {
        self.start <= other.start
    }
}

/// The items of `src[start..end]` left after cutting `cuts` (sorted by
/// start) in turn, the last cut having moved the cursor to `cursor` and
/// `kept` holding what was kept so far. A cut starting before the cursor
/// (overlapping an earlier one) is passed over.
pub open spec fn cut_fold<T>(src: Seq<T>, end: int, cuts: Seq<Cut>, cursor: int, kept: Seq<T>) -> (Seq<T>, int)
    decreases cuts.len(),
{
    if cuts.len() == 0 {
        (kept, cursor)
    } else {
        let c = cuts[0];
        if c.start < cursor {
            cut_fold(src, end, cuts.skip(1), cursor, kept)
        } else {
            let upto = if c.start < end {
                c.start as int
            } else {
                end
            };
            let next = if c.end > cursor {
                c.end as int
            } else {
                cursor
            };
            cut_fold(src, end, cuts.skip(1), next, kept + src.subrange(cursor, upto))
        }
    }
}

/// The text of `src[start..end]` with every cut removed: cuts are taken
/// in order of their start, each keeping the text from the cursor up to
/// its start and moving the cursor past its end; what follows the last
/// cut is kept too.
pub open spec fn spec_text_without<T>(src: Seq<T>, start: int, end: int, cuts: Seq<Cut>) -> Seq<T> {
    let (kept, cursor) = cut_fold(src, end, sort_seq(cuts), start, Seq::<T>::empty());
    let from = if cursor < end {
        cursor
    } else {
        end
    };
    kept + src.subrange(from, end)
}

/// The cuts all lie inside `start..end`.
pub open spec fn cuts_within(cuts: Seq<Cut>, start: int, end: int) -> bool {
    forall|i: int|
        0 <= i < cuts.len() ==> start <= (#[trigger] cuts[i]).start <= cuts[i].end && cuts[i].end <= end
}

proof fn lemma_cuts_within_perm(cuts: Seq<Cut>, start: int, end: int)
    requires
        cuts_within(cuts, start, end),
    ensures
        cuts_within(sort_seq(cuts), start, end),
{
    lemma_sort_seq_permutation(cuts);
    lemma_sort_seq_sorted(cuts);
    let s = sort_seq(cuts);
    assert forall|i: int| 0 <= i < s.len() implies start <= (#[trigger] s[i]).start <= s[i].end
        && s[i].end <= end by {
        assert(s.to_multiset().count(s[i]) > 0) by {
            s.to_multiset_ensures();
            assert(s.contains(s[i]));
        }
        cuts.to_multiset_ensures();
        assert(cuts.contains(s[i]));
    }
}

/// Removes the ranges `cuts` from `source[start..end]` (bytes or
/// characters); see [`spec_text_without`].
pub fn text_without<T: Copy>(source: &[T], start: usize, end: usize, cuts: Vec<Cut>) -> (r: Vec<T>)
    requires
        start <= end <= source@.len(),
        cuts_within(cuts@, start as int, end as int),
    ensures
        r@ == spec_text_without(source@, start as int, end as int, cuts@),
{
    let ghost all = cuts@;
    let sorted = stable_sort(cuts);
    proof {
        lemma_cuts_within_perm(all, start as int, end as int);
    }
    let mut kept: Vec<T> = Vec::new();
    let mut cursor = start;
    let mut i: usize = 0;
    assert(sorted@.skip(0) =~= sorted@);
    assert(kept@ =~= Seq::<T>::empty());
    while i < sorted.len()
        invariant
            start <= cursor <= end <= source@.len(),
            i <= sorted@.len(),
            cuts_within(sorted@, start as int, end as int),
            cut_fold(source@, end as int, sorted@, start as int, Seq::<T>::empty()) == cut_fold(
                source@,
                end as int,
                sorted@.skip(i as int),
                cursor as int,
                kept@,
            ),
        decreases sorted.len() - i,
    {
        let c = sorted[i];
        assert(sorted@.skip(i as int)[0] == c);
        assert(sorted@.skip(i as int).skip(1) =~= sorted@.skip(i + 1));
        if c.start >= cursor {
            let upto = if c.start < end {
                c.start
            } else {
                end
            };
            let mut k = cursor;
            let ghost before = kept@;
            while k < upto
                invariant
                    cursor <= k <= upto <= end <= source@.len(),
                    kept@ == before + source@.subrange(cursor as int, k as int),
                decreases upto - k,
            {
                kept.push(source[k]);
                k += 1;
                assert(kept@ =~= before + source@.subrange(cursor as int, k as int));
            }
            cursor = if c.end > cursor {
                c.end
            } else {
                cursor
            };
        }
        i += 1;
    }
    assert(sorted@.skip(i as int) =~= Seq::<Cut>::empty());
    let from = if cursor < end {
        cursor
    } else {
        end
    };
    let ghost before = kept@;
    let mut k = from;
    while k < end
        invariant
            from <= k <= end <= source@.len(),
            kept@ == before + source@.subrange(from as int, k as int),
        decreases end - k,
    {
        kept.push(source[k]);
        k += 1;
        assert(kept@ =~= before + source@.subrange(from as int, k as int));
    }
    kept
}

// ---------------------------------------------------------------------
// Referenced names.
// ---------------------------------------------------------------------

/// Whether some string of `v` reads `x`.
pub open spec fn has_view(v: Seq<String>, x: Seq<char>) -> bool {
    exists|j: int| 0 <= j < v.len() && #[trigger] v[j]@ == x
}

/// `r` is `names` as the extractor reports them: noise names (one
/// character or none) dropped, the rest sorted with duplicates removed.
pub open spec fn tidied(names: Seq<String>, r: Seq<String>) -> bool {
    &&& is_sorted(r)
    &&& forall|i: int, j: int| 0 <= i < j < r.len() ==> r[i]@ != r[j]@
    &&& forall|i: int| 0 <= i < r.len() ==> (#[trigger] r[i])@.len() > 1 && has_view(names, r[i]@)
    &&& forall|j: int| 0 <= j < names.len() && (#[trigger] names[j])@.len() > 1 ==> has_view(r, names[j]@)
}

/// The names captured as references, as the extractor reports them; see
/// [`tidied`].
pub fn tidy_names(names: Vec<String>) -> (r: Vec<String>)
    ensures
        tidied(names@, r@),
{
    let sorted = stable_sort(names);
    proof {
        lemma_sort_seq_sorted(names@);
        lemma_sort_seq_permutation(names@);
    }
    let mut out: Vec<String> = Vec::new();
    let mut i: usize = 0;
    while i < sorted.len()
        invariant
            i <= sorted@.len(),
            is_sorted(sorted@),
            sorted@ == sort_seq(names@),
            sorted@.to_multiset() == names@.to_multiset(),
            is_sorted(out@),
            forall|a: int, b: int| 0 <= a < b < out@.len() ==> out@[a]@ != out@[b]@,
            forall|a: int| 0 <= a < out@.len() ==> (#[trigger] out@[a])@.len() > 1 && has_view(sorted@.take(i as int), out@[a]@),
            forall|j: int| 0 <= j < i && (#[trigger] sorted@[j])@.len() > 1 ==> has_view(out@, sorted@[j]@),
            out@.len() > 0 ==> exists|j: int| 0 <= j < i && #[trigger] sorted@[j] == out@.last(),
        decreases sorted.len() - i,
    {
        let name = &sorted[i];
        let noise = is_noise_name(name.as_str());
        let dup = out.len() > 0 && out[out.len() - 1] == *name;
        let ghost old_out = out@;
        assert forall|a: int| 0 <= a < out@.len() implies has_view(sorted@.take(i + 1), (#[trigger] out@[a])@) by {
            let j = choose|j: int| 0 <= j < sorted@.take(i as int).len() && #[trigger] sorted@.take(i as int)[j]@ == out@[a]@;
            assert(sorted@.take(i + 1)[j] == sorted@.take(i as int)[j]);
        }
        if !noise && !dup {
            proof {
                if out@.len() > 0 {
                    let j = choose|j: int| 0 <= j < i && #[trigger] sorted@[j] == out@.last();
                    assert(sorted@[j].key_le(sorted@[i as int]));
                    assert forall|a: int| 0 <= a < out@.len() implies (#[trigger] out@[a]).key_le(*name)
                        && out@[a]@ != name@ by {
                        if a < out@.len() - 1 {
                            assert(out@[a].key_le(out@.last()));
                            String::lemma_key_trans(out@[a], out@.last(), *name);
                        }
                        if out@[a]@ == name@ {
                            crate::sort::lemma_lex_antisym(out@.last()@, name@);
                            if a < out@.len() - 1 {
                                assert(out@[a].key_le(out@.last()));
                                crate::sort::lemma_lex_antisym(out@[a]@, out@.last()@);
                            }
                        }
                    }
                }
                assert(sorted@.take(i + 1)[i as int] == *name);
            }
            out.push(name.clone());
        }
        proof {
            assert forall|j: int| 0 <= j < i + 1 && (#[trigger] sorted@[j])@.len() > 1 implies has_view(out@, sorted@[j]@) by {
                if j < i {
                    let k = choose|k: int| 0 <= k < old_out.len() && #[trigger] old_out[k]@ == sorted@[j]@;
                    assert(out@[k] == old_out[k]);
                } else if dup {
                    assert(out@[out@.len() - 1]@ == sorted@[i as int]@);
                } else {
                    assert(out@[out@.len() - 1] == sorted@[i as int]);
                }
            }
            if out@.len() > 0 {
                if !noise && !dup {
                    assert(sorted@[i as int] == out@.last());
                } else {
                    let j = choose|j: int| 0 <= j < i && #[trigger] sorted@[j] == out@.last();
                    assert(sorted@[j] == out@.last());
                }
            }
        }
        i += 1;
    }
    proof {
        assert(sorted@.take(i as int) =~= sorted@);
        assert forall|a: int| 0 <= a < out@.len() implies has_view(names@, (#[trigger] out@[a])@) by {
            let j = choose|j: int| 0 <= j < sorted@.len() && #[trigger] sorted@[j]@ == out@[a]@;
            assert(sorted@.to_multiset().count(sorted@[j]) > 0) by {
                sorted@.to_multiset_ensures();
                assert(sorted@.contains(sorted@[j]));
            }
            names@.to_multiset_ensures();
            assert(names@.contains(sorted@[j]));
            let k = choose|k: int| 0 <= k < names@.len() && names@[k] == sorted@[j];
            assert(names@[k]@ == out@[a]@);
        }
        assert forall|j: int| 0 <= j < names@.len() && (#[trigger] names@[j])@.len() > 1 implies has_view(out@, names@[j]@) by {
            assert(names@.to_multiset().count(names@[j]) > 0) by {
                names@.to_multiset_ensures();
                assert(names@.contains(names@[j]));
            }
            sorted@.to_multiset_ensures();
            assert(sorted@.contains(names@[j]));
            let k = choose|k: int| 0 <= k < sorted@.len() && sorted@[k] == names@[j];
            assert(sorted@[k]@.len() > 1);
        }
    }
    out
}

} // verus!
