use std::collections::HashMap;

use rinkaku::deps::{
    is_generated_content, path_proximity_rank, resolve_dependencies, should_index_file,
    should_parse_file, NameMatcher, ResolvedSymbol, Resolver, TagsResolver,
};
use rinkaku::diff::LineRange;
use rinkaku::extract::{ExtractedSymbol, SymbolKind};
use rinkaku::report::FileReport;

/// A `Resolver` backed by an in-memory map.
struct FakeResolver {
    matches: HashMap<&'static str, Vec<ResolvedSymbol>>,
}

impl Resolver for FakeResolver {
    fn resolve(&self, name: &str) -> Vec<ResolvedSymbol> {
        self.matches.get(name).cloned().unwrap_or_default()
    }
}

fn symbol(name: &str, referenced_names: Vec<&str>) -> ExtractedSymbol {
    ExtractedSymbol {
        id: String::new(),
        name: name.to_string(),
        kind: SymbolKind::Function,
        signature: format!("fn {name}()"),
        range: LineRange { start: 1, end: 1 },
        container: None,
        referenced_names: referenced_names.into_iter().map(str::to_string).collect(),
        dependencies: vec![],
        omitted_dependency_matches: 0,
        is_test: false,
        classification: None,
        previous_signature: None,
    }
}

/// A candidate at `path`, with a signature derived from the path.
fn candidate(path: &str) -> ResolvedSymbol {
    ResolvedSymbol {
        signature: format!("fn helper() // {path}"),
        path: path.to_string(),
    }
}

fn run_cap_case(resolved: Vec<ResolvedSymbol>, expected_dependencies: Vec<ResolvedSymbol>, expected_omitted: usize) {
    let files = vec![FileReport {
        path: "src/pkg/a.rs".to_string(),
        symbols: vec![symbol("foo", vec!["helper"])],
    }];
    let resolver = FakeResolver {
        matches: HashMap::from([("helper", resolved)]),
    };

    let expected = vec![FileReport {
        path: "src/pkg/a.rs".to_string(),
        symbols: vec![ExtractedSymbol {
            dependencies: expected_dependencies,
            omitted_dependency_matches: expected_omitted,
            ..symbol("foo", vec!["helper"])
        }],
    }];
    let actual = resolve_dependencies(files, &resolver);

    assert_eq!(expected, actual);
}

#[test]
fn should_keep_all_and_omit_none_when_two_candidates_are_under_the_cap() {
    run_cap_case(
        vec![candidate("src/pkg/b.rs"), candidate("src/pkg/c.rs")],
        vec![candidate("src/pkg/b.rs"), candidate("src/pkg/c.rs")],
        0,
    );
}

#[test]
fn should_keep_all_and_omit_none_when_three_candidates_exactly_meet_the_cap() {
    run_cap_case(
        vec![candidate("src/pkg/b.rs"), candidate("src/pkg/c.rs"), candidate("src/pkg/d.rs")],
        vec![candidate("src/pkg/b.rs"), candidate("src/pkg/c.rs"), candidate("src/pkg/d.rs")],
        0,
    );
}

#[test]
fn should_truncate_to_cap_and_omit_one_when_four_candidates_exceed_the_cap() {
    run_cap_case(
        vec![
            candidate("src/pkg/b.rs"),
            candidate("src/pkg/c.rs"),
            candidate("src/pkg/d.rs"),
            candidate("src/pkg/e.rs"),
        ],
        vec![candidate("src/pkg/b.rs"), candidate("src/pkg/c.rs"), candidate("src/pkg/d.rs")],
        1,
    );
}

#[test]
fn deps_should_populate_dependencies_when_referenced_name_resolves() {
    let files = vec![FileReport {
        path: "src/lib.rs".to_string(),
        symbols: vec![symbol("foo", vec!["helper"])],
    }];
    let resolver = FakeResolver {
        matches: HashMap::from([(
            "helper",
            vec![ResolvedSymbol {
                signature: "fn helper()".to_string(),
                path: "src/util.rs".to_string(),
            }],
        )]),
    };

    let expected = vec![FileReport {
        path: "src/lib.rs".to_string(),
        symbols: vec![ExtractedSymbol {
            dependencies: vec![ResolvedSymbol {
                signature: "fn helper()".to_string(),
                path: "src/util.rs".to_string(),
            }],
            ..symbol("foo", vec!["helper"])
        }],
    }];
    let actual = resolve_dependencies(files, &resolver);

    assert_eq!(expected, actual);
}

#[test]
fn deps_should_exclude_self_reference_from_dependencies() {
    // "Point" resolves to a real definition (itself), but a
    // symbol referencing its own name (see the doc comment on
    // `LanguageSupport::reference_query`) must not list itself as
    // a dependency.
    let files = vec![FileReport {
        path: "src/lib.rs".to_string(),
        symbols: vec![symbol("Point", vec!["Point"])],
    }];
    let resolver = FakeResolver {
        matches: HashMap::from([(
            "Point",
            vec![ResolvedSymbol {
                signature: "struct Point".to_string(),
                path: "src/lib.rs".to_string(),
            }],
        )]),
    };

    let expected = vec![FileReport {
        path: "src/lib.rs".to_string(),
        symbols: vec![symbol("Point", vec!["Point"])],
    }];
    let actual = resolve_dependencies(files, &resolver);

    assert_eq!(expected, actual);
}

#[test]
fn deps_should_exclude_dependency_already_reported_elsewhere_in_the_diff() {
    // "helper" is itself a changed symbol reported in this diff
    // (a different file than "foo"), so it must not be repeated
    // under "foo"'s dependencies even though it resolves.
    let files = vec![
        FileReport {
            path: "src/lib.rs".to_string(),
            symbols: vec![symbol("foo", vec!["helper"])],
        },
        FileReport {
            path: "src/util.rs".to_string(),
            symbols: vec![symbol("helper", vec![])],
        },
    ];
    let resolver = FakeResolver {
        matches: HashMap::from([(
            "helper",
            vec![ResolvedSymbol {
                signature: "fn helper()".to_string(),
                path: "src/util.rs".to_string(),
            }],
        )]),
    };

    let expected = files.clone();
    let actual = resolve_dependencies(files, &resolver);

    assert_eq!(expected, actual);
}

#[test]
fn deps_should_keep_dependency_when_a_same_named_symbol_exists_elsewhere_in_the_diff() {
    // "helper" is changed in this diff, but at "src/a.rs::helper" —
    // a different file from the actual dependency target,
    // "src/b.rs::helper". Excluding by name alone would wrongly
    // drop this dependency just because a same-named, unrelated
    // symbol happens to also be part of the diff; exclusion must
    // be keyed on (name, path), not name alone.
    let files = vec![
        FileReport {
            path: "src/a.rs".to_string(),
            symbols: vec![symbol("foo", vec!["helper"]), symbol("helper", vec![])],
        },
        FileReport {
            path: "src/b.rs".to_string(),
            symbols: vec![],
        },
    ];
    let resolver = FakeResolver {
        matches: HashMap::from([(
            "helper",
            vec![ResolvedSymbol {
                signature: "fn helper()".to_string(),
                path: "src/b.rs".to_string(),
            }],
        )]),
    };

    let expected = vec![
        FileReport {
            path: "src/a.rs".to_string(),
            symbols: vec![
                ExtractedSymbol {
                    dependencies: vec![ResolvedSymbol {
                        signature: "fn helper()".to_string(),
                        path: "src/b.rs".to_string(),
                    }],
                    ..symbol("foo", vec!["helper"])
                },
                symbol("helper", vec![]),
            ],
        },
        FileReport {
            path: "src/b.rs".to_string(),
            symbols: vec![],
        },
    ];
    let actual = resolve_dependencies(files, &resolver);

    assert_eq!(expected, actual);
}

#[test]
fn deps_should_leave_dependencies_empty_when_referenced_name_does_not_resolve() {
    let files = vec![FileReport {
        path: "src/lib.rs".to_string(),
        symbols: vec![symbol("foo", vec!["i32"])],
    }];
    let resolver = FakeResolver {
        matches: HashMap::new(),
    };

    let expected = vec![FileReport {
        path: "src/lib.rs".to_string(),
        symbols: vec![symbol("foo", vec!["i32"])],
    }];
    let actual = resolve_dependencies(files, &resolver);

    assert_eq!(expected, actual);
}

#[test]
fn deps_should_rank_same_file_candidate_above_other_candidates() {
    // Four same-named candidates at increasing path distance from
    // the referencing symbol's own file ("src/pkg/a.rs"): itself,
    // same directory, a shared grandparent, and a wholly unrelated
    // top-level path. Fed to the resolver in the *reverse* of
    // proximity order so this test cannot pass by accident of
    // input ordering.
    let files = vec![FileReport {
        path: "src/pkg/a.rs".to_string(),
        symbols: vec![symbol("foo", vec!["helper"])],
    }];
    let resolver = FakeResolver {
        matches: HashMap::from([(
            "helper",
            vec![
                candidate("other/unrelated.rs"),
                candidate("src/other_pkg/c.rs"),
                candidate("src/pkg/b.rs"),
                candidate("src/pkg/a.rs"),
            ],
        )]),
    };

    let expected = vec![FileReport {
        path: "src/pkg/a.rs".to_string(),
        symbols: vec![ExtractedSymbol {
            dependencies: vec![
                candidate("src/pkg/a.rs"),
                candidate("src/pkg/b.rs"),
                candidate("src/other_pkg/c.rs"),
            ],
            omitted_dependency_matches: 1,
            ..symbol("foo", vec!["helper"])
        }],
    }];
    let actual = resolve_dependencies(files, &resolver);

    assert_eq!(expected, actual);
}

#[test]
fn deps_should_keep_all_matches_when_at_or_under_the_cap() {
    let files = vec![FileReport {
        path: "src/pkg/a.rs".to_string(),
        symbols: vec![symbol("foo", vec!["helper"])],
    }];
    let resolver = FakeResolver {
        matches: HashMap::from([(
            "helper",
            vec![candidate("src/pkg/b.rs"), candidate("src/pkg/c.rs")],
        )]),
    };

    let expected = vec![FileReport {
        path: "src/pkg/a.rs".to_string(),
        symbols: vec![ExtractedSymbol {
            dependencies: vec![candidate("src/pkg/b.rs"), candidate("src/pkg/c.rs")],
            omitted_dependency_matches: 0,
            ..symbol("foo", vec!["helper"])
        }],
    }];
    let actual = resolve_dependencies(files, &resolver);

    assert_eq!(expected, actual);
}

#[test]
fn deps_should_accumulate_omitted_matches_across_multiple_referenced_names() {
    // Two different referenced names each overflow the per-name cap
    // by one match; the symbol-level omitted count is their sum,
    // not just the last name processed.
    let files = vec![FileReport {
        path: "src/pkg/a.rs".to_string(),
        symbols: vec![symbol("foo", vec!["helper", "other"])],
    }];
    let resolver = FakeResolver {
        matches: HashMap::from([
            (
                "helper",
                vec![
                    candidate("src/pkg/b.rs"),
                    candidate("src/pkg/c.rs"),
                    candidate("src/pkg/d.rs"),
                    candidate("src/pkg/e.rs"),
                ],
            ),
            (
                "other",
                vec![
                    ResolvedSymbol {
                        signature: "fn other() // src/pkg/f.rs".to_string(),
                        path: "src/pkg/f.rs".to_string(),
                    },
                    ResolvedSymbol {
                        signature: "fn other() // src/pkg/g.rs".to_string(),
                        path: "src/pkg/g.rs".to_string(),
                    },
                    ResolvedSymbol {
                        signature: "fn other() // src/pkg/h.rs".to_string(),
                        path: "src/pkg/h.rs".to_string(),
                    },
                    ResolvedSymbol {
                        signature: "fn other() // src/pkg/i.rs".to_string(),
                        path: "src/pkg/i.rs".to_string(),
                    },
                ],
            ),
        ]),
    };

    let actual = resolve_dependencies(files, &resolver);

    // NOTE: partial assertion — only `omitted_dependency_matches`
    // and the dependency count are checked, not the full ranked
    // list, because all four candidates per name sit at the same
    // proximity rank ("same directory") and their relative order
    // among equally-ranked candidates is not a contract this test
    // needs to pin down; the per-name cap-and-count behavior is.
    let deps_symbol = &actual[0].symbols[0];
    assert_eq!(6, deps_symbol.dependencies.len());
    assert_eq!(2, deps_symbol.omitted_dependency_matches);
}

#[test]
fn resolve_dependencies_should_populate_dependencies_when_referenced_name_resolves() {
    let files = vec![FileReport {
        path: "src/lib.rs".to_string(),
        symbols: vec![symbol("foo", vec!["helper"])],
    }];
    let resolver = FakeResolver {
        matches: HashMap::from([(
            "helper",
            vec![ResolvedSymbol {
                signature: "fn helper()".to_string(),
                path: "src/util.rs".to_string(),
            }],
        )]),
    };

    let expected = vec![FileReport {
        path: "src/lib.rs".to_string(),
        symbols: vec![ExtractedSymbol {
            dependencies: vec![ResolvedSymbol {
                signature: "fn helper()".to_string(),
                path: "src/util.rs".to_string(),
            }],
            ..symbol("foo", vec!["helper"])
        }],
    }];
    let actual = resolve_dependencies(files, &resolver);

    assert_eq!(expected, actual);
}

#[test]
fn resolve_dependencies_should_exclude_self_reference_from_dependencies() {
    // "Point" resolves to a real definition (itself), but a
    // symbol referencing its own name (see the doc comment on
    // `LanguageSupport::reference_query`) must not list itself as
    // a dependency.
    let files = vec![FileReport {
        path: "src/lib.rs".to_string(),
        symbols: vec![symbol("Point", vec!["Point"])],
    }];
    let resolver = FakeResolver {
        matches: HashMap::from([(
            "Point",
            vec![ResolvedSymbol {
                signature: "struct Point".to_string(),
                path: "src/lib.rs".to_string(),
            }],
        )]),
    };

    let expected = vec![FileReport {
        path: "src/lib.rs".to_string(),
        symbols: vec![symbol("Point", vec!["Point"])],
    }];
    let actual = resolve_dependencies(files, &resolver);

    assert_eq!(expected, actual);
}

#[test]
fn resolve_dependencies_should_exclude_dependency_already_reported_elsewhere_in_the_diff() {
    // "helper" is itself a changed symbol reported in this diff
    // (a different file than "foo"), so it must not be repeated
    // under "foo"'s dependencies even though it resolves.
    let files = vec![
        FileReport {
            path: "src/lib.rs".to_string(),
            symbols: vec![symbol("foo", vec!["helper"])],
        },
        FileReport {
            path: "src/util.rs".to_string(),
            symbols: vec![symbol("helper", vec![])],
        },
    ];
    let resolver = FakeResolver {
        matches: HashMap::from([(
            "helper",
            vec![ResolvedSymbol {
                signature: "fn helper()".to_string(),
                path: "src/util.rs".to_string(),
            }],
        )]),
    };

    let expected = files.clone();
    let actual = resolve_dependencies(files, &resolver);

    assert_eq!(expected, actual);
}

#[test]
fn resolve_dependencies_should_keep_dependency_when_a_same_named_symbol_exists_elsewhere_in_the_diff() {
    // "helper" is changed in this diff, but at "src/a.rs::helper" —
    // a different file from the actual dependency target,
    // "src/b.rs::helper". Excluding by name alone would wrongly
    // drop this dependency just because a same-named, unrelated
    // symbol happens to also be part of the diff; exclusion must
    // be keyed on (name, path), not name alone.
    let files = vec![
        FileReport {
            path: "src/a.rs".to_string(),
            symbols: vec![symbol("foo", vec!["helper"]), symbol("helper", vec![])],
        },
        FileReport {
            path: "src/b.rs".to_string(),
            symbols: vec![],
        },
    ];
    let resolver = FakeResolver {
        matches: HashMap::from([(
            "helper",
            vec![ResolvedSymbol {
                signature: "fn helper()".to_string(),
                path: "src/b.rs".to_string(),
            }],
        )]),
    };

    let expected = vec![
        FileReport {
            path: "src/a.rs".to_string(),
            symbols: vec![
                ExtractedSymbol {
                    dependencies: vec![ResolvedSymbol {
                        signature: "fn helper()".to_string(),
                        path: "src/b.rs".to_string(),
                    }],
                    ..symbol("foo", vec!["helper"])
                },
                symbol("helper", vec![]),
            ],
        },
        FileReport {
            path: "src/b.rs".to_string(),
            symbols: vec![],
        },
    ];
    let actual = resolve_dependencies(files, &resolver);

    assert_eq!(expected, actual);
}

#[test]
fn resolve_dependencies_should_leave_dependencies_empty_when_referenced_name_does_not_resolve() {
    let files = vec![FileReport {
        path: "src/lib.rs".to_string(),
        symbols: vec![symbol("foo", vec!["i32"])],
    }];
    let resolver = FakeResolver {
        matches: HashMap::new(),
    };

    let expected = vec![FileReport {
        path: "src/lib.rs".to_string(),
        symbols: vec![symbol("foo", vec!["i32"])],
    }];
    let actual = resolve_dependencies(files, &resolver);

    assert_eq!(expected, actual);
}

#[test]
fn resolve_dependencies_should_rank_same_file_candidate_above_other_candidates() {
    // Four same-named candidates at increasing path distance from
    // the referencing symbol's own file ("src/pkg/a.rs"): itself,
    // same directory, a shared grandparent, and a wholly unrelated
    // top-level path. Fed to the resolver in the *reverse* of
    // proximity order so this test cannot pass by accident of
    // input ordering.
    let files = vec![FileReport {
        path: "src/pkg/a.rs".to_string(),
        symbols: vec![symbol("foo", vec!["helper"])],
    }];
    let resolver = FakeResolver {
        matches: HashMap::from([(
            "helper",
            vec![
                candidate("other/unrelated.rs"),
                candidate("src/other_pkg/c.rs"),
                candidate("src/pkg/b.rs"),
                candidate("src/pkg/a.rs"),
            ],
        )]),
    };

    let expected = vec![FileReport {
        path: "src/pkg/a.rs".to_string(),
        symbols: vec![ExtractedSymbol {
            dependencies: vec![
                candidate("src/pkg/a.rs"),
                candidate("src/pkg/b.rs"),
                candidate("src/other_pkg/c.rs"),
            ],
            omitted_dependency_matches: 1,
            ..symbol("foo", vec!["helper"])
        }],
    }];
    let actual = resolve_dependencies(files, &resolver);

    assert_eq!(expected, actual);
}

#[test]
fn resolve_dependencies_should_keep_all_matches_when_at_or_under_the_cap() {
    let files = vec![FileReport {
        path: "src/pkg/a.rs".to_string(),
        symbols: vec![symbol("foo", vec!["helper"])],
    }];
    let resolver = FakeResolver {
        matches: HashMap::from([(
            "helper",
            vec![candidate("src/pkg/b.rs"), candidate("src/pkg/c.rs")],
        )]),
    };

    let expected = vec![FileReport {
        path: "src/pkg/a.rs".to_string(),
        symbols: vec![ExtractedSymbol {
            dependencies: vec![candidate("src/pkg/b.rs"), candidate("src/pkg/c.rs")],
            omitted_dependency_matches: 0,
            ..symbol("foo", vec!["helper"])
        }],
    }];
    let actual = resolve_dependencies(files, &resolver);

    assert_eq!(expected, actual);
}

#[test]
fn resolve_dependencies_should_accumulate_omitted_matches_across_multiple_referenced_names() {
    // Two different referenced names each overflow the per-name cap
    // by one match; the symbol-level omitted count is their sum,
    // not just the last name processed.
    let files = vec![FileReport {
        path: "src/pkg/a.rs".to_string(),
        symbols: vec![symbol("foo", vec!["helper", "other"])],
    }];
    let resolver = FakeResolver {
        matches: HashMap::from([
            (
                "helper",
                vec![
                    candidate("src/pkg/b.rs"),
                    candidate("src/pkg/c.rs"),
                    candidate("src/pkg/d.rs"),
                    candidate("src/pkg/e.rs"),
                ],
            ),
            (
                "other",
                vec![
                    ResolvedSymbol {
                        signature: "fn other() // src/pkg/f.rs".to_string(),
                        path: "src/pkg/f.rs".to_string(),
                    },
                    ResolvedSymbol {
                        signature: "fn other() // src/pkg/g.rs".to_string(),
                        path: "src/pkg/g.rs".to_string(),
                    },
                    ResolvedSymbol {
                        signature: "fn other() // src/pkg/h.rs".to_string(),
                        path: "src/pkg/h.rs".to_string(),
                    },
                    ResolvedSymbol {
                        signature: "fn other() // src/pkg/i.rs".to_string(),
                        path: "src/pkg/i.rs".to_string(),
                    },
                ],
            ),
        ]),
    };

    let actual = resolve_dependencies(files, &resolver);

    // NOTE: partial assertion — only `omitted_dependency_matches`
    // and the dependency count are checked, not the full ranked
    // list, because all four candidates per name sit at the same
    // proximity rank ("same directory") and their relative order
    // among equally-ranked candidates is not a contract this test
    // needs to pin down; the per-name cap-and-count behavior is.
    let deps_symbol = &actual[0].symbols[0];
    assert_eq!(6, deps_symbol.dependencies.len());
    assert_eq!(2, deps_symbol.omitted_dependency_matches);
}

#[test]
fn proximity_rank_orders_same_file_then_directory_then_shared_prefix() {
    assert_eq!((0, usize::MAX), path_proximity_rank("src/pkg/a.rs", "src/pkg/a.rs"));
    assert_eq!((1, usize::MAX), path_proximity_rank("src/pkg/a.rs", "src/pkg/b.rs"));
    assert_eq!((2, 1), path_proximity_rank("src/pkg/a.rs", "src/other_pkg/c.rs"));
    assert_eq!((2, 2), path_proximity_rank("src/pkg/deep/a.rs", "src/pkg/other/c.rs"));
    assert_eq!((3, 0), path_proximity_rank("src/pkg/a.rs", "other/unrelated.rs"));
}

#[test]
fn proximity_rank_treats_two_root_files_as_same_directory() {
    assert_eq!((1, usize::MAX), path_proximity_rank("a.rs", "b.rs"));
    assert_eq!((3, 0), path_proximity_rank("a.rs", "src/b.rs"));
}

#[test]
fn generated_content_is_detected_by_at_generated_marker() {
    assert!(is_generated_content("// @generated by tool\nfn main() {}\n"));
}

#[test]
fn generated_content_is_detected_by_code_generated_do_not_edit_line() {
    let content = "\
// Code generated by SQLBoiler 4.19.5. DO NOT EDIT.

package models
";
    assert!(is_generated_content(content));
}

#[test]
fn generated_content_needs_both_phrases_on_one_line() {
    assert!(!is_generated_content("// Code generated by tool.\n// DO NOT EDIT.\n"));
}

#[test]
fn generated_content_marker_after_the_fifth_line_is_ignored() {
    assert!(!is_generated_content("a\nb\nc\nd\ne\n// @generated\n"));
    assert!(is_generated_content("a\nb\nc\nd\n// @generated\n"));
}

#[test]
fn generated_content_marker_is_case_sensitive() {
    assert!(!is_generated_content("// code generated by tool. do not edit.\n"));
    assert!(!is_generated_content("// @Generated\n"));
}

fn matcher(names: &[&str]) -> NameMatcher {
    NameMatcher::for_names(names.iter().map(|s| s.to_string()).collect())
        .expect("a few identifier names always build a matcher")
}

#[test]
fn prefilter_passes_file_containing_a_referenced_name() {
    let m = matcher(&["helper"]);
    assert!(should_parse_file(&m, "fn helper(x: i32) -> i32 {\n    x\n}\n"));
}

#[test]
fn prefilter_skips_file_whose_content_contains_no_referenced_name() {
    let m = matcher(&["helper"]);
    assert!(!should_parse_file(&m, "fn unrelated() -> i32 {\n    1\n}\n"));
}

#[test]
fn prefilter_passes_file_when_referenced_name_appears_incidentally() {
    let m = matcher(&["helper"]);
    assert!(should_parse_file(&m, "fn wrapper() -> i32 {\n    helpers()\n}\n"));
}

#[test]
fn prefilter_passes_nothing_when_reference_names_is_empty() {
    let m = matcher(&[]);
    assert!(!should_parse_file(&m, "fn helper() -> i32 {\n    1\n}\n"));
}

#[test]
fn should_index_file_applies_every_exclusion() {
    let m = matcher(&["Foo"]);
    let go = "package models\n\nfunc Foo() int {\n\treturn 1\n}\n";
    let generated = "// Code generated by tool. DO NOT EDIT.\n\npackage models\n\nfunc Foo() int {\n\treturn 1\n}\n";
    let none: Vec<String> = vec![];
    let marked = vec!["models/user.go".to_string()];
    assert!(should_index_file("models/user.go", go, false, &none, false, &m));
    assert!(!should_index_file("models/user.go", go, false, &marked, false, &m));
    assert!(should_index_file("models/user.go", go, false, &marked, true, &m));
    assert!(!should_index_file("models/user.go", generated, false, &none, false, &m));
    assert!(should_index_file("models/user.go", generated, false, &none, true, &m));
    assert!(!should_index_file("models/user_test.go", go, false, &none, false, &m));
    assert!(should_index_file("models/user_test.go", go, true, &none, false, &m));
    assert!(!should_index_file("models/user.rb", go, true, &none, true, &m));
    assert!(!should_index_file("models/other.go", "package models\n", false, &none, false, &m));
}

fn indexed_symbol(name: &str, signature: &str, is_test: bool) -> ExtractedSymbol {
    ExtractedSymbol {
        signature: signature.to_string(),
        is_test,
        ..symbol(name, vec![])
    }
}

#[test]
fn tags_resolver_returns_every_definition_of_a_name_in_indexing_order() {
    let mut resolver = TagsResolver::empty();
    resolver.add_file_symbols(
        &"src/a.rs".to_string(),
        &vec![indexed_symbol("helper", "fn helper() -> i32", false)],
        false,
    );
    resolver.add_file_symbols(
        &"src/b.rs".to_string(),
        &vec![
            indexed_symbol("helper", "fn helper() -> u8", false),
            indexed_symbol("other", "fn other()", false),
        ],
        false,
    );

    let expected = vec![
        ResolvedSymbol { signature: "fn helper() -> i32".to_string(), path: "src/a.rs".to_string() },
        ResolvedSymbol { signature: "fn helper() -> u8".to_string(), path: "src/b.rs".to_string() },
    ];
    assert_eq!(expected, resolver.resolve("helper"));
    assert_eq!(Vec::<ResolvedSymbol>::new(), resolver.resolve("missing"));
}

#[test]
fn tags_resolver_leaves_out_test_symbols_unless_tests_are_included() {
    let mut resolver = TagsResolver::empty();
    let symbols = vec![
        indexed_symbol("add", "fn add(a: i32, b: i32) -> i32", false),
        indexed_symbol("should_add_two_numbers", "fn should_add_two_numbers()", true),
    ];
    resolver.add_file_symbols(&"src/lib.rs".to_string(), &symbols, false);
    assert_eq!(1, resolver.resolve("add").len());
    assert_eq!(0, resolver.resolve("should_add_two_numbers").len());

    let mut with_tests = TagsResolver::empty();
    with_tests.add_file_symbols(&"src/lib.rs".to_string(), &symbols, true);
    assert_eq!(1, with_tests.resolve("should_add_two_numbers").len());
}
