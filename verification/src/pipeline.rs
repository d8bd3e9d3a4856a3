//! The decisions of the analysis pipeline: which changed files are
//! analyzed and how, which symbols count as tests, and how the per-file
//! results become a [`Report`]. Reading files and parsing source stay with
//! the caller, which hands the results in.
use vstd::prelude::*;

use crate::deps::{
    is_generated_content, resolve_dependencies, resolved_file, spec_generated_content, string_views,
    Resolver,
};
use crate::extract::RemovedSymbol;
use crate::file_size::{
    collect_entries, collect_warnings, compute_file_size_bands, compute_file_size_warnings,
};
use crate::graph::assemble::{
    all_edges, build_graph, file_stamped, finished_graph, flat_keys, flat_refs, nodes_of,
    stamp_ids, symbols_before,
};
use crate::graph::fan_in::{
    compute_fan_ins, describes, fan_in_ids, fan_in_targets, target_ids, FanIn,
};
use crate::graph::{Node, SymbolGraph};
use crate::sort::{is_sorted, sort_seq};
use crate::diff::{ChangeKind, ChangedFile};
use crate::extract::{Classification, ExtractedSymbol};
use crate::language::{
    is_test_path, language_for_path, spec_is_test_path, spec_language_for_path, Language,
};
use crate::report::{FileReport, Report, ReportOrigin, SkipReason, SkippedFile, TestFileSummary};
use crate::text::{lines_of, spec_lines, str_to_chars};

verus! {

// ---------------------------------------------------------------------
// One changed file.
// ---------------------------------------------------------------------

/// What to do with one changed file of a diff.
#[derive(Debug, Clone, Copy, PartialEq, Eq, Structural)]
pub enum FilePlan {
    /// Record the file as skipped.
    Skip(SkipReason),
    /// Supported, but no new-side lines changed: nothing to read on the
    /// head side, though the base side may still be compared.
    NoHeadChange(Language),
    /// Read the head side and extract the symbols the changes touch.
    ReadHead(Language),
}

/// The plan for a changed file: a deletion is skipped first, then a path
/// marked generated, then a binary patch, then a path with no supported
/// language; otherwise the head side is read when some new-side lines
/// changed.
pub open spec fn spec_plan(file: ChangedFile, generated_paths: Seq<Seq<char>>) -> FilePlan {
    if file.kind == ChangeKind::Deleted {
        FilePlan::Skip(SkipReason::Deleted)
    } else if generated_paths.contains(file.path@) {
        FilePlan::Skip(SkipReason::Generated)
    } else if file.is_binary {
        FilePlan::Skip(SkipReason::Binary)
    } else {
        match spec_language_for_path(file.path@) {
            None => FilePlan::Skip(SkipReason::UnsupportedLanguage),
            Some(lang) => if file.changed_ranges@.len() == 0 {
                FilePlan::NoHeadChange(lang)
            } else {
                FilePlan::ReadHead(lang)
            },
        }
    }
}

fn contains_path(v: &Vec<String>, s: &String) -> (r: bool)
    ensures
        r == string_views(v@).contains(s@),
{
    let mut i: usize = 0;
    while i < v.len()
        invariant
            i <= v@.len(),
            forall|j: int| 0 <= j < i ==> v@[j]@ != s@,
        decreases v.len() - i,
    {
        if v[i] == *s {
            assert(string_views(v@)[i as int] == s@);
            return true;
        }
        i += 1;
    }
    false
}

/// Decides what to do with a changed file; see [`spec_plan`].
pub fn plan_changed_file(file: &ChangedFile, generated_paths: &Vec<String>) -> (r: FilePlan)
    ensures
        r == spec_plan(*file, string_views(generated_paths@)),
{
    if file.kind == ChangeKind::Deleted {
        return FilePlan::Skip(SkipReason::Deleted);
    }
    if contains_path(generated_paths, &file.path) {
        return FilePlan::Skip(SkipReason::Generated);
    }
    if file.is_binary {
        return FilePlan::Skip(SkipReason::Binary);
    }
    match language_for_path(file.path.as_str()) {
        None => FilePlan::Skip(SkipReason::UnsupportedLanguage),
        Some(lang) => if file.changed_ranges.len() == 0 {
            FilePlan::NoHeadChange(lang)
        } else {
            FilePlan::ReadHead(lang)
        },
    }
}

/// The path a changed file's base side is read from: its old path when it
/// was renamed, else its own path.
pub fn base_read_path(file: &ChangedFile) -> (r: String)
    ensures
        r@ == match file.old_path {
            Some(p) => p@,
            None => file.path@,
        },
{
    match &file.old_path {
        Some(p) => p.clone(),
        None => file.path.clone(),
    }
}

/// Whether head-side content that was read goes on to be parsed: always
/// when generated files are included, otherwise only when it carries no
/// generated-file marker.
pub fn head_content_admitted(content: &str, include_generated: bool) -> (r: bool)
    ensures
        r == (include_generated || !spec_generated_content(content@)),
{
    include_generated || !is_generated_content(content)
}

/// What a diff's changed files have given so far: the files reported,
/// the files skipped, the base-side symbols found removed, and the line
/// count of every head file read.
pub struct DiffAccumulator {
    pub files: Vec<FileReport>,
    pub skipped: Vec<SkippedFile>,
    pub removed: Vec<RemovedSymbol>,
    pub sized_files: Vec<(String, usize)>,
}

impl DiffAccumulator {
    /// Nothing recorded yet.
    pub fn new() -> (r: DiffAccumulator)
        ensures
            r.files@.len() == 0,
            r.skipped@.len() == 0,
            r.removed@.len() == 0,
            r.sized_files@.len() == 0,
    {
        DiffAccumulator { files: Vec::new(), skipped: Vec::new(), removed: Vec::new(), sized_files: Vec::new() }
    }
}

/// Records one changed file under its `plan`: a skipped file with its
/// reason; a file with no head-side change as reported with no symbols;
/// a file whose head side was read (`head`) as reported with `symbols`
/// and its line count, unless its content marks it generated (and
/// generated files are not included), in which case it is skipped as
/// generated. `removed` (what comparing with the base side found) is
/// kept for a reported file. Every changed file thus gives exactly one
/// entry, reported or skipped, under its own path.
pub fn record_file(
    acc: &mut DiffAccumulator,
    file: &ChangedFile,
    plan: FilePlan,
    head: Option<&str>,
    symbols: Vec<ExtractedSymbol>,
    removed: Vec<RemovedSymbol>,
    include_generated: bool,
)
    requires
        plan is ReadHead ==> head is Some,
    ensures
        final(acc).files@.len() + final(acc).skipped@.len() == old(acc).files@.len() + old(
            acc,
        ).skipped@.len() + 1,
        match plan {
            FilePlan::Skip(reason) => {
                &&& final(acc).skipped@ == old(acc).skipped@.push(
                    SkippedFile { path: file.path, reason },
                )
                &&& final(acc).files@ == old(acc).files@
                &&& final(acc).removed@ == old(acc).removed@
                &&& final(acc).sized_files@ == old(acc).sized_files@
            },
            FilePlan::NoHeadChange(_) => {
                &&& final(acc).files@.len() == old(acc).files@.len() + 1
                &&& final(acc).files@.drop_last() == old(acc).files@
                &&& final(acc).files@.last().path == file.path
                &&& final(acc).files@.last().symbols@.len() == 0
                &&& final(acc).skipped@ == old(acc).skipped@
                &&& final(acc).removed@ == old(acc).removed@ + removed@
                &&& final(acc).sized_files@ == old(acc).sized_files@
            },
            FilePlan::ReadHead(_) => {
                let content = head.unwrap()@;
                if include_generated || !spec_generated_content(content) {
                    &&& final(acc).files@ == old(acc).files@.push(
                        FileReport { path: file.path, symbols },
                    )
                    &&& final(acc).skipped@ == old(acc).skipped@
                    &&& final(acc).removed@ == old(acc).removed@ + removed@
                    &&& final(acc).sized_files@ == old(acc).sized_files@.push(
                        (file.path, spec_lines(content).len() as usize),
                    )
                } else {
                    &&& final(acc).skipped@ == old(acc).skipped@.push(
                        SkippedFile { path: file.path, reason: SkipReason::Generated },
                    )
                    &&& final(acc).files@ == old(acc).files@
                    &&& final(acc).removed@ == old(acc).removed@
                    &&& final(acc).sized_files@ == old(acc).sized_files@
                }
            },
        },
{
    let mut removed = removed;
    match plan {
        FilePlan::Skip(reason) => {
            acc.skipped.push(SkippedFile { path: file.path.clone(), reason });
        },
        FilePlan::NoHeadChange(_) => {
            acc.files.push(FileReport { path: file.path.clone(), symbols: Vec::new() });
            acc.removed.append(&mut removed);
        },
        FilePlan::ReadHead(_) => {
            let content = match head {
                Some(c) => c,
                None => {
                    return;
                },
            };
            if head_content_admitted(content, include_generated) {
                let lines = line_count(content);
                acc.sized_files.push((file.path.clone(), lines));
                acc.files.push(FileReport { path: file.path.clone(), symbols });
                acc.removed.append(&mut removed);
            } else {
                acc.skipped.push(SkippedFile { path: file.path.clone(), reason: SkipReason::Generated });
            }
        },
    }
}

/// The number of lines of `content`, as `str::lines` counts them.
pub fn line_count(content: &str) -> (n: usize)
    ensures
        n == spec_lines(content@).len(),
{
    let chars = str_to_chars(content);
    let lines = lines_of(chars.as_slice());
    assert(lines@.map_values(|l: Vec<char>| l@).len() == lines@.len());
    lines.len()
}

/// How a file's head symbols are classified against the base side.
#[derive(Debug, Clone, Copy, PartialEq, Eq, Structural)]
pub enum BaseStep {
    /// An added file has no base side: every symbol is `Added`.
    MarkAllAdded,
    /// Nothing could come of a comparison: no head symbols and no changed
    /// old-side lines.
    Nothing,
    /// Read the base side, extract its symbols, and classify against them.
    CompareWithBase,
}

/// The classification step for a file of kind `kind` with `head_count`
/// head symbols and `old_range_count` changed old-side ranges.
pub open spec fn spec_base_step(kind: ChangeKind, head_count: nat, old_range_count: nat) -> BaseStep {
    if kind == ChangeKind::Added {
        BaseStep::MarkAllAdded
    } else if head_count == 0 && old_range_count == 0 {
        BaseStep::Nothing
    } else {
        BaseStep::CompareWithBase
    }
}

/// Decides the classification step; see [`spec_base_step`].
pub fn base_step(kind: ChangeKind, head_count: usize, old_range_count: usize) -> (r: BaseStep)
    ensures
        r == spec_base_step(kind, head_count as nat, old_range_count as nat),
{
    if kind == ChangeKind::Added {
        BaseStep::MarkAllAdded
    } else if head_count == 0 && old_range_count == 0 {
        BaseStep::Nothing
    } else {
        BaseStep::CompareWithBase
    }
}

/// Classifies every symbol `Added`, changing nothing else.
pub fn mark_all_added(symbols: &mut Vec<ExtractedSymbol>)
    ensures
        final(symbols)@.len() == old(symbols)@.len(),
        forall|i: int|
            0 <= i < old(symbols)@.len() ==> #[trigger] final(symbols)@[i] == (ExtractedSymbol {
                classification: Some(Classification::Added),
                ..old(symbols)@[i]
            }),
{
    let ghost start = symbols@;
    let mut i: usize = 0;
    while i < symbols.len()
        invariant
            symbols@.len() == start.len(),
            i <= start.len(),
            forall|j: int|
                0 <= j < i ==> #[trigger] symbols@[j] == (ExtractedSymbol {
                    classification: Some(Classification::Added),
                    ..start[j]
                }),
            forall|j: int| i <= j < start.len() ==> #[trigger] symbols@[j] == start[j],
        decreases start.len() - i,
    {
        symbols[i].classification = Some(Classification::Added);
        i += 1;
    }
}

// ---------------------------------------------------------------------
// Test symbols.
// ---------------------------------------------------------------------

/// Whether `path` is a test file as a whole, by its language's convention
/// (a path with no language is not).
pub open spec fn file_is_test_path(path: Seq<char>) -> bool {
    match spec_language_for_path(path) {
        Some(lang) => spec_is_test_path(lang, path),
        None => false,
    }
}

/// The symbols of `syms` not marked as tests, in order.
pub open spec fn non_test(syms: Seq<ExtractedSymbol>) -> Seq<ExtractedSymbol>
    decreases syms.len(),
{
    if syms.len() == 0 {
        seq![]
    } else if syms.last().is_test {
        non_test(syms.drop_last())
    } else {
        non_test(syms.drop_last()).push(syms.last())
    }
}

proof fn lemma_non_test_len(syms: Seq<ExtractedSymbol>)
    ensures
        non_test(syms).len() <= syms.len(),
    decreases syms.len(),
{
    if syms.len() > 0 {
        lemma_non_test_len(syms.drop_last());
    }
}

/// The symbols of a file that survive test exclusion: none in a test
/// file, otherwise those not marked as tests.
pub open spec fn kept_symbols(file: FileReport) -> Seq<ExtractedSymbol> {
    if file_is_test_path(file.path@) {
        seq![]
    } else {
        non_test(file.symbols@)
    }
}

/// How many of a file's symbols test exclusion removes.
pub open spec fn test_count(file: FileReport) -> nat {
    (file.symbols@.len() - kept_symbols(file).len()) as nat
}

/// Whether a file stays in the report after test exclusion: it had no
/// symbols to begin with, or some survive.
pub open spec fn file_kept(file: FileReport) -> bool {
    file.symbols@.len() == 0 || kept_symbols(file).len() > 0
}

/// The files kept after test exclusion, as `(path, symbols)`, in order.
pub open spec fn kept_files(files: Seq<FileReport>) -> Seq<(String, Seq<ExtractedSymbol>)>
    decreases files.len(),
{
    if files.len() == 0 {
        seq![]
    } else {
        let prev = kept_files(files.drop_last());
        let f = files.last();
        if file_kept(f) {
            prev.push((f.path, kept_symbols(f)))
        } else {
            prev
        }
    }
}

/// One summary per file that lost symbols to test exclusion, in order.
pub open spec fn test_summaries(files: Seq<FileReport>) -> Seq<TestFileSummary>
    decreases files.len(),
{
    if files.len() == 0 {
        seq![]
    } else {
        let prev = test_summaries(files.drop_last());
        let f = files.last();
        if test_count(f) > 0 {
            prev.push(TestFileSummary { path: f.path, symbol_count: test_count(f) as usize })
        } else {
            prev
        }
    }
}

proof fn lemma_non_test_has_no_tests(syms: Seq<ExtractedSymbol>)
    ensures
        forall|j: int| 0 <= j < non_test(syms).len() ==> !(#[trigger] non_test(syms)[j]).is_test,
    decreases syms.len(),
{
    if syms.len() > 0 {
        lemma_non_test_has_no_tests(syms.drop_last());
        let prev = non_test(syms.drop_last());
        let cur = non_test(syms);
        assert forall|j: int| 0 <= j < cur.len() implies !(#[trigger] cur[j]).is_test by {
            if j < prev.len() {
                assert(cur[j] == prev[j]);
            }
        }
    }
}

/// After test exclusion, no kept file holds a test symbol, and a test file
/// (by path) is kept only when it had no symbols at all; every summary
/// counts at least one removed symbol.
pub proof fn law_test_exclusion_keeps_no_tests(files: Seq<FileReport>)
    requires
        forall|i: int| 0 <= i < files.len() ==> (#[trigger] files[i]).symbols@.len() <= usize::MAX,
    ensures
        forall|i: int, j: int|
            0 <= i < kept_files(files).len() && 0 <= j < kept_files(files)[i].1.len() ==> !(
            #[trigger] kept_files(files)[i].1[j]).is_test,
        forall|i: int|
            0 <= i < kept_files(files).len() && file_is_test_path((#[trigger] kept_files(files)[i]).0@)
                ==> kept_files(files)[i].1.len() == 0,
        forall|i: int| 0 <= i < test_summaries(files).len() ==> (#[trigger] test_summaries(files)[i]).symbol_count > 0,
    decreases files.len(),
{
    if files.len() > 0 {
        assert forall|i: int| 0 <= i < files.drop_last().len() implies (#[trigger] files.drop_last()[i]).symbols@.len() <= usize::MAX by {
            assert(files.drop_last()[i] == files[i]);
        }
        law_test_exclusion_keeps_no_tests(files.drop_last());
        let f = files.last();
        let prev = kept_files(files.drop_last());
        let cur = kept_files(files);
        lemma_non_test_has_no_tests(f.symbols@);
        lemma_non_test_len(f.symbols@);
        assert forall|i: int, j: int| 0 <= i < cur.len() && 0 <= j < cur[i].1.len() implies !(
        #[trigger] cur[i].1[j]).is_test by {
            if i < prev.len() {
                assert(cur[i] == prev[i]);
            }
        }
        assert forall|i: int| 0 <= i < cur.len() && file_is_test_path((#[trigger] cur[i]).0@) implies cur[i].1.len() == 0 by {
            if i < prev.len() {
                assert(cur[i] == prev[i]);
            }
        }
        let ts = test_summaries(files);
        let tprev = test_summaries(files.drop_last());
        assert forall|i: int| 0 <= i < ts.len() implies (#[trigger] ts[i]).symbol_count > 0 by {
            if i < tprev.len() {
                assert(ts[i] == tprev[i]);
            } else {
                assert(test_count(f) <= f.symbols@.len());
                assert(f.symbols@.len() <= usize::MAX);
            }
        }
    }
}

/// `(path, symbols)` of each file.
pub open spec fn file_parts(files: Seq<FileReport>) -> Seq<(String, Seq<ExtractedSymbol>)> {
    files.map_values(|f: FileReport| (f.path, f.symbols@))
}

fn path_is_test_file(path: &String) -> (r: bool)
    ensures
        r == file_is_test_path(path@),
{
    match language_for_path(path.as_str()) {
        Some(lang) => is_test_path(lang, path.as_str()),
        None => false,
    }
}

fn take_non_test(symbols: Vec<ExtractedSymbol>) -> (r: Vec<ExtractedSymbol>)
    ensures
        r@ == non_test(symbols@),
{
    let ghost orig = symbols@;
    let n = symbols.len();
    let mut rest = symbols;
    let mut out: Vec<ExtractedSymbol> = Vec::new();
    let mut k: usize = 0;
    while rest.len() > 0
        invariant
            orig.len() == n,
            k <= orig.len(),
            rest@ == orig.skip(k as int),
            out@ == non_test(orig.take(k as int)),
        decreases rest.len(),
    {
        let s = rest.remove(0);
        assert(orig.take(k + 1).drop_last() =~= orig.take(k as int));
        assert(orig.take(k + 1).last() == s);
        if !s.is_test {
            out.push(s);
        }
        k += 1;
        assert(rest@ =~= orig.skip(k as int));
    }
    assert(orig.take(k as int) =~= orig);
    out
}

/// Splits `files` into the non-test symbols and per-file test counts. In
/// a test file (by path) every symbol is a test; elsewhere those marked
/// as tests are. A file left with no symbols is dropped, unless it had
/// none to begin with (a pure rename stays).
pub fn partition_test_symbols(files: Vec<FileReport>) -> (r: (Vec<FileReport>, Vec<TestFileSummary>))
    ensures
        file_parts(r.0@) == kept_files(files@),
        r.1@ == test_summaries(files@),
{
    let ghost orig = files@;
    let n = files.len();
    let mut rest = files;
    let mut kept: Vec<FileReport> = Vec::new();
    let mut tests: Vec<TestFileSummary> = Vec::new();
    let mut k: usize = 0;
    while rest.len() > 0
        invariant
            orig.len() == n,
            k <= orig.len(),
            rest@ == orig.skip(k as int),
            file_parts(kept@) == kept_files(orig.take(k as int)),
            tests@ == test_summaries(orig.take(k as int)),
        decreases rest.len(),
    {
        let file = rest.remove(0);
        assert(orig.take(k + 1).drop_last() =~= orig.take(k as int));
        assert(orig.take(k + 1).last() == file);
        let ghost old_file = file;
        let had_symbols = file.symbols.len() > 0;
        let total = file.symbols.len();
        let test_path = path_is_test_file(&file.path);
        let FileReport { path, symbols } = file;
        let non_test_syms = if test_path {
            Vec::new()
        } else {
            take_non_test(symbols)
        };
        assert(non_test_syms@ == kept_symbols(old_file));
        proof {
            lemma_non_test_len(old_file.symbols@);
        }
        let removed_count = total - non_test_syms.len();
        if removed_count > 0 {
            tests.push(TestFileSummary { path: path.clone(), symbol_count: removed_count });
        }
        if !had_symbols || non_test_syms.len() > 0 {
            kept.push(FileReport { path, symbols: non_test_syms });
            assert(file_parts(kept@) =~= kept_files(orig.take(k + 1)));
        }
        k += 1;
        assert(rest@ =~= orig.skip(k as int));
    }
    assert(orig.take(k as int) =~= orig);
    (kept, tests)
}

// ---------------------------------------------------------------------
// Whole-repository outline: one file.
// ---------------------------------------------------------------------

/// The language of a repository file that goes into the outline, or
/// `None` when it is left out: no supported language, a test file (unless
/// tests are included), or a path marked generated (unless generated files
/// are included).
pub open spec fn spec_repo_file_language(
    path: Seq<char>,
    include_tests: bool,
    generated_paths: Seq<Seq<char>>,
    include_generated: bool,
) -> Option<Language> {
    match spec_language_for_path(path) {
        None => None,
        Some(lang) => if !include_tests && spec_is_test_path(lang, path) {
            None
        } else if !include_generated && generated_paths.contains(path) {
            None
        } else {
            Some(lang)
        },
    }
}

/// Decides whether a repository file goes into the outline; see
/// [`spec_repo_file_language`].
pub fn repo_file_language(
    path: &String,
    include_tests: bool,
    generated_paths: &Vec<String>,
    include_generated: bool,
) -> (r: Option<Language>)
    ensures
        r == spec_repo_file_language(
            path@,
            include_tests,
            string_views(generated_paths@),
            include_generated,
        ),
{
    match language_for_path(path.as_str()) {
        None => None,
        Some(lang) => if !include_tests && is_test_path(lang, path.as_str()) {
            None
        } else if !include_generated && contains_path(generated_paths, path) {
            None
        } else {
            Some(lang)
        },
    }
}

/// The symbols of a repository file that go into the outline: all of them
/// when tests are included, otherwise those not marked as tests.
pub fn outline_symbols(symbols: Vec<ExtractedSymbol>, include_tests: bool) -> (r: Vec<ExtractedSymbol>)
    ensures
        r@ == if include_tests {
            symbols@
        } else {
            non_test(symbols@)
        },
{
    if include_tests {
        symbols
    } else {
        take_non_test(symbols)
    }
}

// ---------------------------------------------------------------------
// Assembling a report.
// ---------------------------------------------------------------------

/// `resolved` is what dependency resolution made of `files`: the files
/// themselves when no resolver was given, otherwise each file resolved
/// through the resolver.
pub open spec fn resolved_from<R: Resolver + ?Sized>(files: Seq<FileReport>, resolved: Seq<FileReport>, resolver: Option<&R>) -> bool {
    &&& resolved.len() == files.len()
    &&& match resolver {
        Some(r) => forall|f: int| 0 <= f < files.len() ==> resolved_file(r, files, #[trigger] resolved[f], f),
        None => resolved == files,
    }
}

/// `graph` is the symbol graph [`build_graph`] makes of `files`.
pub open spec fn graph_over(files: Seq<FileReport>, graph: SymbolGraph) -> bool {
    &&& nodes_of(flat_keys(files), graph.nodes@)
    &&& (graph.roots@, graph.edges@) == finished_graph(
        graph.nodes@,
        all_edges(graph.nodes@, flat_refs(files)),
    )
}

/// `out` is `files` with every symbol's id stamped from `nodes`.
pub open spec fn stamped_files(files: Seq<FileReport>, out: Seq<FileReport>, nodes: Seq<Node>) -> bool {
    &&& out.len() == files.len()
    &&& forall|f: int|
        0 <= f < files.len() ==> file_stamped(
            files[f],
            #[trigger] out[f],
            nodes,
            symbols_before(files, f),
            files[f].symbols@.len() as int,
        )
}

/// `fan_ins` are the fan-ins of `graph`, as [`compute_fan_ins`] gives them.
pub open spec fn fan_ins_of(graph: SymbolGraph, fan_ins: Seq<FanIn>) -> bool {
    &&& is_sorted(fan_ins)
    &&& fan_in_ids(fan_ins).to_multiset() == fan_in_targets(
        graph.nodes@,
        graph.edges@,
        target_ids(graph.edges@),
    ).to_multiset()
    &&& forall|i: int| 0 <= i < fan_ins.len() ==> describes(#[trigger] fan_ins[i], graph.nodes@, graph.edges@)
}

/// The last stages shared by both entry points: graph, ids, fan-ins and
/// file sizes over the final `files`.
fn finish_report(
    origin: ReportOrigin,
    files: Vec<FileReport>,
    skipped: Vec<SkippedFile>,
    tests: Vec<TestFileSummary>,
    removed: Vec<RemovedSymbol>,
    sized_files: &Vec<(String, usize)>,
) -> (report: Report)
    ensures
        report.origin == origin,
        report.skipped@ == skipped@,
        report.tests@ == tests@,
        report.removed@ == removed@,
        graph_over(files@, report.graph),
        stamped_files(files@, report.files@, report.graph.nodes@),
        fan_ins_of(report.graph, report.fan_ins@),
        report.file_size_warnings@ == sort_seq(collect_warnings(sized_files@)),
        report.file_size_bands@ == sort_seq(collect_entries(sized_files@)),
{
    let graph = build_graph(files.as_slice());
    let mut files = files;
    stamp_ids(&mut files, &graph);
    let fan_ins = compute_fan_ins(&graph);
    let file_size_warnings = compute_file_size_warnings(sized_files.as_slice());
    let file_size_bands = compute_file_size_bands(sized_files.as_slice());
    Report {
        origin,
        files,
        skipped,
        graph,
        tests,
        fan_ins,
        file_size_warnings,
        file_size_bands,
        removed,
    }
}

/// Finishes a diff report from the per-file results: test symbols are
/// left out (summarized in `tests`) unless `include_tests`, dependencies
/// are resolved when a resolver is given, then the graph is built over
/// the final files, their ids stamped, fan-ins and file sizes computed.
pub fn finish_diff_report<R: Resolver + ?Sized>(
    files: Vec<FileReport>,
    skipped: Vec<SkippedFile>,
    removed: Vec<RemovedSymbol>,
    sized_files: &Vec<(String, usize)>,
    include_tests: bool,
    resolver: Option<&R>,
) -> (report: Report)
    ensures
        report.origin == ReportOrigin::Diff,
        report.skipped@ == skipped@,
        report.removed@ == removed@,
        report.tests@ == if include_tests {
            Seq::<TestFileSummary>::empty()
        } else {
            test_summaries(files@)
        },
        exists|kept: Seq<FileReport>, resolved: Seq<FileReport>|
            #![trigger resolved_from(kept, resolved, resolver)]
            file_parts(kept) == (if include_tests {
                file_parts(files@)
            } else {
                kept_files(files@)
            }) && resolved_from(kept, resolved, resolver) && graph_over(resolved, report.graph)
                && stamped_files(resolved, report.files@, report.graph.nodes@),
        fan_ins_of(report.graph, report.fan_ins@),
        report.file_size_warnings@ == sort_seq(collect_warnings(sized_files@)),
        report.file_size_bands@ == sort_seq(collect_entries(sized_files@)),
{
    let ghost given = files@;
    let (kept, tests) = if include_tests {
        (files, Vec::new())
    } else {
        partition_test_symbols(files)
    };
    let ghost kept_view = kept@;
    let resolved = match resolver {
        Some(r) => resolve_dependencies(kept, r),
        None => kept,
    };
    let ghost resolved_view = resolved@;
    let report = finish_report(ReportOrigin::Diff, resolved, skipped, tests, removed, sized_files);
    assert(resolved_from(kept_view, resolved_view, resolver));
    report
}

/// Finishes a whole-repository outline from each admitted file's path and
/// outline symbols: files left with no symbols are dropped, then the graph,
/// ids, fan-ins and file sizes follow as for a diff. Nothing is skipped,
/// removed or summarized as tests in this mode.
pub fn finish_repo_report(outcomes: Vec<(String, Vec<ExtractedSymbol>)>, sized_files: &Vec<(String, usize)>) -> (report: Report)
    ensures
        report.origin == ReportOrigin::RepoOutline,
        report.skipped@.len() == 0,
        report.tests@.len() == 0,
        report.removed@.len() == 0,
        exists|files: Seq<FileReport>|
            #![trigger graph_over(files, report.graph)]
            file_parts(files) == nonempty_outcomes(outcomes@) && graph_over(files, report.graph)
                && stamped_files(files, report.files@, report.graph.nodes@),
        fan_ins_of(report.graph, report.fan_ins@),
        report.file_size_warnings@ == sort_seq(collect_warnings(sized_files@)),
        report.file_size_bands@ == sort_seq(collect_entries(sized_files@)),
{
    let ghost orig = outcomes@;
    let n = outcomes.len();
    let mut rest = outcomes;
    let mut files: Vec<FileReport> = Vec::new();
    let mut k: usize = 0;
    while rest.len() > 0
        invariant
            orig.len() == n,
            k <= orig.len(),
            rest@ == orig.skip(k as int),
            file_parts(files@) == nonempty_outcomes(orig.take(k as int)),
        decreases rest.len(),
    {
        let (path, symbols) = rest.remove(0);
        assert(orig.take(k + 1).drop_last() =~= orig.take(k as int));
        assert(orig.take(k + 1).last() == (path, symbols));
        if symbols.len() > 0 {
            files.push(FileReport { path, symbols });
            assert(file_parts(files@) =~= nonempty_outcomes(orig.take(k + 1)));
        }
        k += 1;
        assert(rest@ =~= orig.skip(k as int));
    }
    assert(orig.take(k as int) =~= orig);
    let ghost files_view = files@;
    let report = finish_report(
        ReportOrigin::RepoOutline,
        files,
        Vec::new(),
        Vec::new(),
        Vec::new(),
        sized_files,
    );
    assert(graph_over(files_view, report.graph));
    report
}

/// The `(path, symbols)` outcomes with at least one symbol, in order.
pub open spec fn nonempty_outcomes(outcomes: Seq<(String, Vec<ExtractedSymbol>)>) -> Seq<
    (String, Seq<ExtractedSymbol>),
>
    decreases outcomes.len(),
{
    if outcomes.len() == 0 {
        seq![]
    } else {
        let prev = nonempty_outcomes(outcomes.drop_last());
        let o = outcomes.last();
        if o.1@.len() > 0 {
            prev.push((o.0, o.1@))
        } else {
            prev
        }
    }
}

} // verus!
