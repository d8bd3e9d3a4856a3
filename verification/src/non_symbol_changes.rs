//! Changed-line counts for files with no changed symbol.
//!
//! Pure over `(path, changed_line_count)` pairs, mirroring
//! [`crate::file_size`]'s pair-in, entries-out shape.
use vstd::prelude::*;

use crate::sort::{lex_le, sort_seq, stable_sort, SortKey};

verus! {

/// One file's total changed-line count, for a file whose diff produced no
/// changed symbol.
#[derive(Debug, Clone, PartialEq, Eq)]
pub struct NonSymbolChange {
    pub path: String,
    pub changed_line_count: usize,
}

impl SortKey for NonSymbolChange {
    open spec fn key_le(self, other: Self) -> bool {
        lex_le(self.path@, other.path@)
    }

    proof fn lemma_key_total(a: Self, b: Self) {
        crate::sort::lemma_lex_total(a.path@, b.path@);
    }

    proof fn lemma_key_trans(a: Self, b: Self, c: Self) {
        crate::sort::lemma_lex_trans(a.path@, b.path@, c.path@);
    }

    fn le(&self, other: &Self) -> (r: bool) {
        crate::sort::str_le(self.path.as_str(), other.path.as_str())
    }
}

/// One entry per pair, in input order.
pub open spec fn collect_changes(files: Seq<(String, usize)>) -> Seq<NonSymbolChange> {
    files.map_values(|f: (String, usize)| NonSymbolChange { path: f.0, changed_line_count: f.1 })
}

/// Builds a [`NonSymbolChange`] per `(path, changed_line_count)` pair,
/// sorted by `path` ascending (stable).
pub fn compute_non_symbol_changes(files: &[(String, usize)]) -> (entries: Vec<NonSymbolChange>)
    ensures
        entries@ == sort_seq(collect_changes(files@)),
{
    let mut entries: Vec<NonSymbolChange> = Vec::new();
    let mut i: usize = 0;
    while i < files.len()
        invariant
            i <= files@.len(),
            entries@ == collect_changes(files@.take(i as int)),
        decreases files.len() - i,
    {
        entries.push(
            NonSymbolChange { path: files[i].0.clone(), changed_line_count: files[i].1 },
        );
        i += 1;
        assert(entries@ =~= collect_changes(files@.take(i as int)));
    }
    assert(files@.take(i as int) =~= files@);
    stable_sort(entries)
}

} // verus!
