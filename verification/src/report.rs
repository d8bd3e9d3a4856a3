//! What an analysis run reports: the per-file units the pipeline stages
//! pass along, and the report they end in.
use vstd::prelude::*;

use crate::extract::{ExtractedSymbol, RemovedSymbol};
use crate::file_size::{FileSizeEntry, FileSizeWarning};
use crate::graph::fan_in::FanIn;
use crate::graph::SymbolGraph;

verus! {

/// One analyzed file and the symbols extracted from it, in source order.
#[derive(Debug, Clone, PartialEq, Eq)]
pub struct FileReport {
    pub path: String,
    pub symbols: Vec<ExtractedSymbol>,
}

/// Why a changed file was looked at but not analyzed.
#[derive(Debug, Clone, Copy, PartialEq, Eq, Structural)]
pub enum SkipReason {
    Deleted,
    Generated,
    Binary,
    UnsupportedLanguage,
}

/// A changed file that was skipped, and why.
#[derive(Debug, Clone, PartialEq, Eq)]
pub struct SkippedFile {
    pub path: String,
    pub reason: SkipReason,
}

/// How many test symbols were left out of one file.
#[derive(Debug, Clone, PartialEq, Eq)]
pub struct TestFileSummary {
    pub path: String,
    pub symbol_count: usize,
}

/// Which entry point produced a report.
#[derive(Debug, Clone, Copy, PartialEq, Eq, Structural)]
pub enum ReportOrigin {
    Diff,
    RepoOutline,
}

/// Everything one analysis run found.
#[derive(Debug, Clone, PartialEq, Eq)]
pub struct Report {
    pub origin: ReportOrigin,
    pub files: Vec<FileReport>,
    pub skipped: Vec<SkippedFile>,
    pub graph: SymbolGraph,
    pub tests: Vec<TestFileSummary>,
    pub fan_ins: Vec<FanIn>,
    pub file_size_warnings: Vec<FileSizeWarning>,
    pub file_size_bands: Vec<FileSizeEntry>,
    pub removed: Vec<RemovedSymbol>,
}

} // verus!
