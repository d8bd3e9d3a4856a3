use rinkaku::deps::{ResolvedSymbol, Resolver};
use rinkaku::diff::{ChangeKind, ChangedFile, LineRange};
use rinkaku::extract::{Classification, ExtractedSymbol, SymbolKind};
use rinkaku::language::Language;
use rinkaku::pipeline::{
    base_step, finish_diff_report, finish_repo_report, head_content_admitted, line_count,
    mark_all_added, outline_symbols, partition_test_symbols, plan_changed_file,
    record_file, repo_file_language, BaseStep, DiffAccumulator, FilePlan,
};
use rinkaku::report::{FileReport, ReportOrigin, SkipReason, SkippedFile, TestFileSummary};

fn symbol(name: &str, referenced_names: Vec<&str>) -> ExtractedSymbol {
    ExtractedSymbol {
        id: String::new(),
        name: name.to_string(),
        kind: SymbolKind::Function,
        signature: format!("fn {name}()"),
        range: LineRange { start: 1, end: 1 },
        container: None,
        referenced_names: referenced_names.into_iter().map(str::to_string).collect(),
        dependencies: vec![],
        omitted_dependency_matches: 0,
        is_test: false,
        classification: None,
        previous_signature: None,
    }
}

fn test_symbol(name: &str) -> ExtractedSymbol {
    ExtractedSymbol { is_test: true, ..symbol(name, vec![]) }
}

fn changed(path: &str, kind: ChangeKind, ranges: Vec<LineRange>, is_binary: bool) -> ChangedFile {
    ChangedFile {
        path: path.to_string(),
        old_path: None,
        kind,
        changed_ranges: ranges,
        is_binary,
    }
}

#[test]
fn plan_skips_deleted_before_generated_before_binary_before_unsupported() {
    let generated = vec!["src/gen.rs".to_string(), "src/old.rs".to_string()];
    let one = vec![LineRange { start: 1, end: 1 }];
    assert_eq!(
        FilePlan::Skip(SkipReason::Deleted),
        plan_changed_file(&changed("src/old.rs", ChangeKind::Deleted, vec![], false), &generated)
    );
    assert_eq!(
        FilePlan::Skip(SkipReason::Generated),
        plan_changed_file(&changed("src/gen.rs", ChangeKind::Modified, one.clone(), true), &generated)
    );
    assert_eq!(
        FilePlan::Skip(SkipReason::Binary),
        plan_changed_file(&changed("assets/logo.png", ChangeKind::Modified, vec![], true), &generated)
    );
    assert_eq!(
        FilePlan::Skip(SkipReason::UnsupportedLanguage),
        plan_changed_file(&changed("src/main.rb", ChangeKind::Modified, one.clone(), false), &generated)
    );
}

#[test]
fn plan_reads_head_only_when_new_side_lines_changed() {
    let none: Vec<String> = vec![];
    assert_eq!(
        FilePlan::ReadHead(Language::Rust),
        plan_changed_file(
            &changed("src/lib.rs", ChangeKind::Modified, vec![LineRange { start: 2, end: 3 }], false),
            &none
        )
    );
    assert_eq!(
        FilePlan::NoHeadChange(Language::Rust),
        plan_changed_file(&changed("src/new_name.rs", ChangeKind::Renamed, vec![], false), &none)
    );
}

#[test]
fn head_content_with_generated_marker_is_admitted_only_when_generated_files_are_included() {
    let content = "// Code generated by tool. DO NOT EDIT.\nfn main() {}\n";
    assert!(!head_content_admitted(content, false));
    assert!(head_content_admitted(content, true));
    assert!(head_content_admitted("fn main() {}\n", false));
}

#[test]
fn line_count_matches_str_lines() {
    for text in ["", "a", "a\n", "a\nb", "a\r\nb\r\n", "\n\n", "x\n\ny"] {
        assert_eq!(text.lines().count(), line_count(text), "{:?}", text);
    }
}

#[test]
fn base_step_marks_added_files_and_skips_empty_comparisons() {
    assert_eq!(BaseStep::MarkAllAdded, base_step(ChangeKind::Added, 0, 0));
    assert_eq!(BaseStep::MarkAllAdded, base_step(ChangeKind::Added, 3, 1));
    assert_eq!(BaseStep::Nothing, base_step(ChangeKind::Modified, 0, 0));
    assert_eq!(BaseStep::CompareWithBase, base_step(ChangeKind::Modified, 0, 2));
    assert_eq!(BaseStep::CompareWithBase, base_step(ChangeKind::Renamed, 1, 0));
}

#[test]
fn mark_all_added_sets_only_the_classification() {
    let mut symbols = vec![symbol("a", vec!["b"]), symbol("b", vec![])];
    mark_all_added(&mut symbols);
    assert!(symbols.iter().all(|s| s.classification == Some(Classification::Added)));
    assert_eq!(vec!["b".to_string()], symbols[0].referenced_names);
}

#[test]
fn partition_drops_test_symbols_and_summarizes_them_per_file() {
    let files = vec![
        FileReport {
            path: "src/lib.rs".to_string(),
            symbols: vec![symbol("add", vec![]), test_symbol("should_add")],
        },
        FileReport {
            path: "tests/it.rs".to_string(),
            symbols: vec![symbol("helper", vec![])],
        },
        FileReport {
            path: "src/renamed.rs".to_string(),
            symbols: vec![],
        },
        FileReport {
            path: "src/only_tests.rs".to_string(),
            symbols: vec![test_symbol("t1"), test_symbol("t2")],
        },
    ];

    let (kept, tests) = partition_test_symbols(files);

    let expected_kept = vec![
        FileReport { path: "src/lib.rs".to_string(), symbols: vec![symbol("add", vec![])] },
        FileReport { path: "src/renamed.rs".to_string(), symbols: vec![] },
    ];
    let expected_tests = vec![
        TestFileSummary { path: "src/lib.rs".to_string(), symbol_count: 1 },
        TestFileSummary { path: "tests/it.rs".to_string(), symbol_count: 1 },
        TestFileSummary { path: "src/only_tests.rs".to_string(), symbol_count: 2 },
    ];
    assert_eq!(expected_kept, kept);
    assert_eq!(expected_tests, tests);
}

#[test]
fn repo_file_language_applies_test_and_generated_exclusions() {
    let generated = vec!["src/gen.rs".to_string()];
    assert_eq!(Some(Language::Rust), repo_file_language(&"src/lib.rs".to_string(), false, &generated, false));
    assert_eq!(None, repo_file_language(&"tests/it.rs".to_string(), false, &generated, false));
    assert_eq!(Some(Language::Rust), repo_file_language(&"tests/it.rs".to_string(), true, &generated, false));
    assert_eq!(None, repo_file_language(&"src/gen.rs".to_string(), false, &generated, false));
    assert_eq!(Some(Language::Rust), repo_file_language(&"src/gen.rs".to_string(), false, &generated, true));
    assert_eq!(None, repo_file_language(&"README.md".to_string(), true, &generated, true));
}

#[test]
fn outline_symbols_drop_tests_unless_included() {
    let symbols = vec![symbol("a", vec![]), test_symbol("t")];
    assert_eq!(vec![symbol("a", vec![])], outline_symbols(symbols.clone(), false));
    assert_eq!(symbols.clone(), outline_symbols(symbols, true));
}

struct OneHelper;

impl Resolver for OneHelper {
    fn resolve(&self, name: &str) -> Vec<ResolvedSymbol> {
        if name == "helper" {
            vec![ResolvedSymbol { signature: "fn helper()".to_string(), path: "src/util.rs".to_string() }]
        } else {
            vec![]
        }
    }
}

#[test]
fn finish_diff_report_resolves_builds_the_graph_and_stamps_ids() {
    let files = vec![FileReport {
        path: "src/lib.rs".to_string(),
        symbols: vec![
            symbol("caller_one", vec!["shared_helper", "helper"]),
            symbol("caller_two", vec!["shared_helper"]),
            symbol("shared_helper", vec![]),
            test_symbol("should_work"),
        ],
    }];
    let skipped = vec![SkippedFile { path: "src/main.rb".to_string(), reason: SkipReason::UnsupportedLanguage }];
    let sized = vec![("src/lib.rs".to_string(), 1200usize)];

    let report = finish_diff_report(files, skipped.clone(), vec![], &sized, false, Some(&OneHelper));

    assert_eq!(ReportOrigin::Diff, report.origin);
    assert_eq!(skipped, report.skipped);
    assert_eq!(
        vec![TestFileSummary { path: "src/lib.rs".to_string(), symbol_count: 1 }],
        report.tests
    );
    let ids: Vec<String> = report.files[0].symbols.iter().map(|s| s.id.clone()).collect();
    assert_eq!(
        vec![
            "src/lib.rs::caller_one".to_string(),
            "src/lib.rs::caller_two".to_string(),
            "src/lib.rs::shared_helper".to_string(),
        ],
        ids
    );
    assert_eq!(
        vec![ResolvedSymbol { signature: "fn helper()".to_string(), path: "src/util.rs".to_string() }],
        report.files[0].symbols[0].dependencies
    );
    assert_eq!(
        vec!["src/lib.rs::caller_one".to_string(), "src/lib.rs::caller_two".to_string()],
        report.graph.roots
    );
    assert_eq!(1, report.fan_ins.len());
    assert_eq!("src/lib.rs::shared_helper", report.fan_ins[0].id);
    assert_eq!(vec!["caller_one".to_string(), "caller_two".to_string()], report.fan_ins[0].used_by);
    assert_eq!(1, report.file_size_warnings.len());
    assert_eq!(1, report.file_size_bands.len());
}

#[test]
fn finish_diff_report_without_resolver_keeps_dependencies_empty_and_tests_when_included() {
    let files = vec![FileReport {
        path: "src/lib.rs".to_string(),
        symbols: vec![symbol("foo", vec!["helper"]), test_symbol("should_work")],
    }];
    let report = finish_diff_report::<OneHelper>(files, vec![], vec![], &vec![], true, None);
    assert!(report.tests.is_empty());
    assert_eq!(2, report.files[0].symbols.len());
    assert!(report.files[0].symbols.iter().all(|s| s.dependencies.is_empty()));
}

#[test]
fn finish_repo_report_drops_files_without_symbols() {
    let outcomes = vec![
        ("src/a.rs".to_string(), vec![symbol("a", vec!["b"])]),
        ("src/empty.rs".to_string(), vec![]),
        ("src/b.rs".to_string(), vec![symbol("b", vec![])]),
    ];
    let sized = vec![("src/a.rs".to_string(), 3usize), ("src/empty.rs".to_string(), 0), ("src/b.rs".to_string(), 2)];

    let report = finish_repo_report(outcomes, &sized);

    assert_eq!(ReportOrigin::RepoOutline, report.origin);
    let paths: Vec<String> = report.files.iter().map(|f| f.path.clone()).collect();
    assert_eq!(vec!["src/a.rs".to_string(), "src/b.rs".to_string()], paths);
    assert_eq!(vec!["src/a.rs::a".to_string()], report.graph.roots);
    assert_eq!(3, report.file_size_bands.len());
    assert!(report.file_size_warnings.is_empty());
    assert!(report.skipped.is_empty() && report.tests.is_empty() && report.removed.is_empty());
}

#[test]
fn every_changed_file_is_recorded_once_as_reported_or_skipped() {
    let mut acc = DiffAccumulator::new();
    let deleted = changed("gone.rs", ChangeKind::Deleted, vec![], false);
    record_file(&mut acc, &deleted, FilePlan::Skip(SkipReason::Deleted), None, vec![], vec![], false);
    let rename = changed("moved.rs", ChangeKind::Renamed, vec![], false);
    record_file(&mut acc, &rename, FilePlan::NoHeadChange(Language::Rust), None, vec![], vec![], false);
    let edited = changed("src/lib.rs", ChangeKind::Modified, vec![LineRange { start: 1, end: 1 }], false);
    record_file(
        &mut acc,
        &edited,
        FilePlan::ReadHead(Language::Rust),
        Some("fn foo() {}\n"),
        vec![symbol("foo", vec![])],
        vec![],
        false,
    );
    let generated = changed("gen.rs", ChangeKind::Modified, vec![LineRange { start: 1, end: 1 }], false);
    record_file(
        &mut acc,
        &generated,
        FilePlan::ReadHead(Language::Rust),
        Some("// @generated\nfn g() {}\n"),
        vec![],
        vec![],
        false,
    );

    assert_eq!(
        vec![
            SkippedFile { path: "gone.rs".to_string(), reason: SkipReason::Deleted },
            SkippedFile { path: "gen.rs".to_string(), reason: SkipReason::Generated },
        ],
        acc.skipped
    );
    assert_eq!(
        vec![
            FileReport { path: "moved.rs".to_string(), symbols: vec![] },
            FileReport { path: "src/lib.rs".to_string(), symbols: vec![symbol("foo", vec![])] },
        ],
        acc.files
    );
    assert_eq!(vec![("src/lib.rs".to_string(), 1)], acc.sized_files);
    assert!(acc.removed.is_empty());
}

#[test]
fn a_renamed_file_is_read_on_the_base_side_under_its_old_path() {
    let renamed = rinkaku::diff::ChangedFile {
        path: "src/new.rs".to_string(),
        old_path: Some("src/old.rs".to_string()),
        kind: rinkaku::diff::ChangeKind::Renamed,
        changed_ranges: vec![],
        is_binary: false,
    };
    assert_eq!(rinkaku::pipeline::base_read_path(&renamed), "src/old.rs");
    let modified = rinkaku::diff::ChangedFile { old_path: None, kind: rinkaku::diff::ChangeKind::Modified, ..renamed };
    assert_eq!(rinkaku::pipeline::base_read_path(&modified), "src/new.rs");
}
