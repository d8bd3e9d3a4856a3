//! File-size warnings and bands: flag source files that have grown past
//! readability thresholds, so oversized files stand out at a glance.
//!
//! Pure over plain `(path, line_count)` pairs. Each pair is classified into
//! a [`FileSizeBand`] by [`classify_file_size`], the single place where the
//! threshold comparisons live, and both [`compute_file_size_warnings`] (the
//! Warn/Split subset) and [`compute_file_size_bands`] (every file) build on
//! it. All three thresholds are strict: a file at exactly a threshold stays
//! in the lower band.
use vstd::prelude::*;

use crate::sort::{is_sorted, lex_le, sort_seq, stable_sort, SortKey};

verus! {

/// Above this many lines a file leaves [`FileSizeBand::Normal`] for
/// [`FileSizeBand::Watch`].
pub const NORMAL_LINE_THRESHOLD: usize = 600;

/// Above this many lines a file is reported as [`FileSizeSeverity::Warn`].
pub const WARN_LINE_THRESHOLD: usize = 1000;

/// Above this many lines a file is reported as [`FileSizeSeverity::Split`].
pub const SPLIT_LINE_THRESHOLD: usize = 1500;

/// Severity of a [`FileSizeWarning`]: `Warn` = start planning the split,
/// `Split` = this needs to be split (or the growth justified).
#[derive(Debug, Clone, Copy, PartialEq, Eq, Structural)]
pub enum FileSizeSeverity {
    Warn,
    Split,
}

/// One file's oversized-file warning.
#[derive(Debug, Clone, PartialEq, Eq)]
pub struct FileSizeWarning {
    pub path: String,
    pub line_count: usize,
    pub severity: FileSizeSeverity,
}

/// The four-tier line-count classification every analyzed file falls into.
#[derive(Debug, Clone, Copy, PartialEq, Eq, Structural)]
pub enum FileSizeBand {
    Normal,
    Watch,
    Warn,
    Split,
}

/// The severity a band carries in a warning, if any.
pub open spec fn band_severity(band: FileSizeBand) -> Option<FileSizeSeverity> {
    match band {
        FileSizeBand::Normal | FileSizeBand::Watch => None,
        FileSizeBand::Warn => Some(FileSizeSeverity::Warn),
        FileSizeBand::Split => Some(FileSizeSeverity::Split),
    }
}

impl FileSizeBand {
    /// The [`FileSizeSeverity`] a [`FileSizeWarning`] would carry for this
    /// band, or `None` for `Normal` / `Watch`.
    pub fn severity(self) -> (r: Option<FileSizeSeverity>)
        ensures
            r == band_severity(self),
    {
        match self {
            FileSizeBand::Normal | FileSizeBand::Watch => None,
            FileSizeBand::Warn => Some(FileSizeSeverity::Warn),
            FileSizeBand::Split => Some(FileSizeSeverity::Split),
        }
    }
}

/// One file's line count and band.
#[derive(Debug, Clone, PartialEq, Eq)]
pub struct FileSizeEntry {
    pub path: String,
    pub line_count: usize,
    pub band: FileSizeBand,
}

/// The band a line count falls into.
pub open spec fn spec_classify_file_size(line_count: usize) -> FileSizeBand {
    if line_count > SPLIT_LINE_THRESHOLD {
        FileSizeBand::Split
    } else if line_count > WARN_LINE_THRESHOLD {
        FileSizeBand::Warn
    } else if line_count > NORMAL_LINE_THRESHOLD {
        FileSizeBand::Watch
    } else {
        FileSizeBand::Normal
    }
}

/// Classifies a single `line_count` into a [`FileSizeBand`].
pub fn classify_file_size(line_count: usize) -> (band: FileSizeBand)
    ensures
        band == spec_classify_file_size(line_count),
{
    if line_count > SPLIT_LINE_THRESHOLD {
        FileSizeBand::Split
    } else if line_count > WARN_LINE_THRESHOLD {
        FileSizeBand::Warn
    } else if line_count > NORMAL_LINE_THRESHOLD {
        FileSizeBand::Watch
    } else {
        FileSizeBand::Normal
    }
}

/// Sort weight of a severity: `Split` above `Warn`.
pub open spec fn spec_severity_rank(severity: FileSizeSeverity) -> u8 {
    match severity {
        FileSizeSeverity::Split => 1,
        FileSizeSeverity::Warn => 0,
    }
}

/// Numeric weight used to sort [`FileSizeSeverity`] descending.
fn severity_rank(severity: FileSizeSeverity) -> (r: u8)
    ensures
        r == spec_severity_rank(severity),
{
    match severity {
        FileSizeSeverity::Split => 1,
        FileSizeSeverity::Warn => 0,
    }
}

/// Warnings order: severity descending, then `line_count` descending, then
/// `path` ascending.
impl SortKey for FileSizeWarning {
    open spec fn key_le(self, other: Self) -> bool {
        let (ra, rb) = (spec_severity_rank(self.severity), spec_severity_rank(other.severity));
        ra > rb || (ra == rb && (self.line_count > other.line_count || (self.line_count
            == other.line_count && lex_le(self.path@, other.path@))))
    }

    proof fn lemma_key_total(a: Self, b: Self) {
        crate::sort::lemma_lex_total(a.path@, b.path@);
    }

    proof fn lemma_key_trans(a: Self, b: Self, c: Self) {
        if a.line_count == b.line_count && b.line_count == c.line_count {
            if lex_le(a.path@, b.path@) && lex_le(b.path@, c.path@) {
                crate::sort::lemma_lex_trans(a.path@, b.path@, c.path@);
            }
        }
    }

    fn le(&self, other: &Self) -> (r: bool) {
        let (ra, rb) = (severity_rank(self.severity), severity_rank(other.severity));
        if ra != rb {
            return ra > rb;
        }
        if self.line_count != other.line_count {
            return self.line_count > other.line_count;
        }
        crate::sort::str_le(self.path.as_str(), other.path.as_str())
    }
}

/// Bands order: `path` ascending.
impl SortKey for FileSizeEntry {
    open spec fn key_le(self, other: Self) -> bool {
        lex_le(self.path@, other.path@)
    }

    proof fn lemma_key_total(a: Self, b: Self) {
        crate::sort::lemma_lex_total(a.path@, b.path@);
    }

    proof fn lemma_key_trans(a: Self, b: Self, c: Self) {
        crate::sort::lemma_lex_trans(a.path@, b.path@, c.path@);
    }

    fn le(&self, other: &Self) -> (r: bool) {
        crate::sort::str_le(self.path.as_str(), other.path.as_str())
    }
}

/// The warning a `(path, line_count)` pair produces, in input order, for
/// every pair above [`WARN_LINE_THRESHOLD`].
pub open spec fn collect_warnings(files: Seq<(String, usize)>) -> Seq<FileSizeWarning>
    decreases files.len(),
{
    if files.len() == 0 {
        seq![]
    } else {
        let rest = collect_warnings(files.drop_last());
        let (path, line_count) = files.last();
        match band_severity(spec_classify_file_size(line_count)) {
            Some(severity) => rest.push(FileSizeWarning { path, line_count, severity }),
            None => rest,
        }
    }
}

/// Every pair's entry, in input order.
pub open spec fn collect_entries(files: Seq<(String, usize)>) -> Seq<FileSizeEntry> {
    files.map_values(
        |f: (String, usize)|
            FileSizeEntry { path: f.0, line_count: f.1, band: spec_classify_file_size(f.1) },
    )
}

/// Computes the per-file size warnings for a `(path, line_count)` list:
/// `Split` above [`SPLIT_LINE_THRESHOLD`], `Warn` above
/// [`WARN_LINE_THRESHOLD`], nothing otherwise; sorted by severity
/// descending, then `line_count` descending, then `path` ascending.
pub fn compute_file_size_warnings(files: &[(String, usize)]) -> (warnings: Vec<FileSizeWarning>)
    ensures
        warnings@ == sort_seq(collect_warnings(files@)),
{
    let mut warnings: Vec<FileSizeWarning> = Vec::new();
    let mut i: usize = 0;
    while i < files.len()
        invariant
            i <= files@.len(),
            warnings@ == collect_warnings(files@.take(i as int)),
        decreases files.len() - i,
    {
        assert(files@.take(i + 1).drop_last() =~= files@.take(i as int));
        let line_count = files[i].1;
        match classify_file_size(line_count).severity() {
            Some(severity) => {
                warnings.push(
                    FileSizeWarning { path: files[i].0.clone(), line_count, severity },
                );
            },
            None => {},
        }
        i += 1;
    }
    assert(files@.take(i as int) =~= files@);
    stable_sort(warnings)
}

/// Computes every file's [`FileSizeEntry`], sorted by `path` ascending
/// (stable, so equal paths keep their input order).
pub fn compute_file_size_bands(files: &[(String, usize)]) -> (entries: Vec<FileSizeEntry>)
    ensures
        entries@ == sort_seq(collect_entries(files@)),
{
    let mut entries: Vec<FileSizeEntry> = Vec::new();
    let mut i: usize = 0;
    while i < files.len()
        invariant
            i <= files@.len(),
            entries@ == collect_entries(files@.take(i as int)),
        decreases files.len() - i,
    {
        let line_count = files[i].1;
        entries.push(
            FileSizeEntry {
                path: files[i].0.clone(),
                line_count,
                band: classify_file_size(line_count),
            },
        );
        i += 1;
        assert(entries@ =~= collect_entries(files@.take(i as int)));
    }
    assert(files@.take(i as int) =~= files@);
    stable_sort(entries)
}

/// A file is warned about exactly when its band carries a severity, with
/// that severity: the warnings are the bands' `Warn`/`Split` entries, in
/// warning order.
pub proof fn law_warnings_agree_with_bands(files: Seq<(String, usize)>)
    ensures
        is_sorted(sort_seq(collect_warnings(files))),
        sort_seq(collect_warnings(files)).to_multiset() == collect_warnings(files).to_multiset(),
        forall|w: FileSizeWarning|
            #[trigger] collect_warnings(files).contains(w) ==> w.line_count > WARN_LINE_THRESHOLD
                && band_severity(spec_classify_file_size(w.line_count)) == Some(w.severity)
                && collect_entries(files).contains(
                FileSizeEntry {
                    path: w.path,
                    line_count: w.line_count,
                    band: spec_classify_file_size(w.line_count),
                },
            ),
        forall|k: int|
            0 <= k < files.len() && files[k].1 > WARN_LINE_THRESHOLD ==> collect_warnings(
                files,
            ).contains(
                FileSizeWarning {
                    path: files[k].0,
                    line_count: files[k].1,
                    severity: band_severity(spec_classify_file_size(files[k].1)).unwrap(),
                },
            ),
    decreases files.len(),
{
    crate::sort::lemma_sort_seq_sorted(collect_warnings(files));
    crate::sort::lemma_sort_seq_permutation(collect_warnings(files));
    if files.len() > 0 {
        let init = files.drop_last();
        law_warnings_agree_with_bands(init);
        let cw = collect_warnings(files);
        let ci = collect_warnings(init);
        let ce = collect_entries(files);
        let cei = collect_entries(init);
        assert(ce =~= cei.push(
            FileSizeEntry {
                path: files.last().0,
                line_count: files.last().1,
                band: spec_classify_file_size(files.last().1),
            },
        ));
        assert forall|w: FileSizeWarning| #[trigger] cw.contains(w) implies w.line_count
            > WARN_LINE_THRESHOLD && band_severity(spec_classify_file_size(w.line_count)) == Some(
            w.severity,
        ) && ce.contains(
            FileSizeEntry {
                path: w.path,
                line_count: w.line_count,
                band: spec_classify_file_size(w.line_count),
            },
        ) by {
            let q = choose|q: int| 0 <= q < cw.len() && cw[q] == w;
            if q < ci.len() {
                assert(ci[q] == w);
                assert(ci.contains(w));
                let e = FileSizeEntry {
                    path: w.path,
                    line_count: w.line_count,
                    band: spec_classify_file_size(w.line_count),
                };
                assert(cei.contains(e));
                let r = choose|r: int| 0 <= r < cei.len() && cei[r] == e;
                assert(ce[r] == e);
            } else {
                assert(ce[ce.len() - 1] == FileSizeEntry {
                    path: w.path,
                    line_count: w.line_count,
                    band: spec_classify_file_size(w.line_count),
                });
            }
        }
        assert forall|k: int| 0 <= k < files.len() && files[k].1 > WARN_LINE_THRESHOLD implies cw.contains(
            FileSizeWarning {
                path: files[k].0,
                line_count: files[k].1,
                severity: band_severity(spec_classify_file_size(files[k].1)).unwrap(),
            },
        ) by {
            let w = FileSizeWarning {
                path: files[k].0,
                line_count: files[k].1,
                severity: band_severity(spec_classify_file_size(files[k].1)).unwrap(),
            };
            if k < init.len() {
                assert(init[k] == files[k]);
                assert(ci.contains(w));
                let r = choose|r: int| 0 <= r < ci.len() && ci[r] == w;
                assert(cw[r] == w);
            } else {
                assert(cw[cw.len() - 1] == w);
            }
        }
    }
}

} // verus!
