//! The repository-wide definition index built from sources: which files
//! are indexed, and what a name resolves to.

use rinkaku::deps::{ResolvedSymbol, Resolver, TagsResolver};

/// Builds the index of `files` for `names`.
fn index(
    files: &[(&str, &str)],
    names: &[&str],
    include_tests: bool,
    generated_paths: &[&str],
    include_generated: bool,
) -> TagsResolver {
    TagsResolver::new(
        files.iter().map(|(p, c)| (p.to_string(), c.to_string())).collect(),
        names.iter().map(|n| n.to_string()).collect(),
        include_tests,
        &generated_paths.iter().map(|p| p.to_string()).collect(),
        include_generated,
    )
    .expect("a matcher for a few names can be built")
}

fn resolved(signature: &str, path: &str) -> ResolvedSymbol {
    ResolvedSymbol { signature: signature.to_string(), path: path.to_string() }
}

#[test]
fn deps_should_resolve_function_call_when_callee_is_defined_in_repo() {
    let resolver = index(&[("src/lib.rs", "fn helper(x: i32) -> i32 {\n    x\n}\n")], &["helper"], false, &[], true);
    let expected = vec![resolved("fn helper(x: i32) -> i32", "src/lib.rs")];
    assert_eq!(expected, resolver.resolve("helper"));
}

#[test]
fn deps_should_resolve_type_reference_when_type_is_defined_in_repo() {
    let resolver = index(&[("src/point.rs", "struct Point {\n    x: i32,\n}\n")], &["Point"], false, &[], true);
    let expected = vec![resolved("struct Point { x: i32, }", "src/point.rs")];
    assert_eq!(expected, resolver.resolve("Point"));
}

#[test]
fn deps_should_return_empty_vec_when_name_has_no_definition_in_repo() {
    let resolver =
        index(&[("src/lib.rs", "fn helper(x: i32) -> i32 {\n    x\n}\n")], &["helper", "i32"], false, &[], true);
    let expected: Vec<ResolvedSymbol> = Vec::new();
    assert_eq!(expected, resolver.resolve("i32"));
}

#[test]
fn deps_should_return_all_matches_when_name_is_defined_multiple_times() {
    let resolver = index(
        &[("src/a.rs", "fn helper() -> i32 {\n    1\n}\n"), ("src/b.rs", "fn helper() -> i32 {\n    2\n}\n")],
        &["helper"],
        false,
        &[],
        true,
    );
    let mut expected = vec![resolved("fn helper() -> i32", "src/a.rs"), resolved("fn helper() -> i32", "src/b.rs")];
    let mut actual = resolver.resolve("helper");
    expected.sort_by(|a, b| a.path.cmp(&b.path));
    actual.sort_by(|a, b| a.path.cmp(&b.path));
    assert_eq!(expected, actual);
}

#[test]
fn should_exclude_test_path_file_from_index_by_default() {
    let resolver =
        index(&[("src/repo_test.go", "package main\n\nfunc TestFoo(t *testing.T) {}\n")], &["TestFoo"], false, &[], true);
    let expected: Vec<ResolvedSymbol> = Vec::new();
    assert_eq!(expected, resolver.resolve("TestFoo"));
}

#[test]
fn should_include_test_path_file_in_index_when_include_tests_is_true() {
    let resolver =
        index(&[("src/repo_test.go", "package main\n\nfunc TestFoo(t *testing.T) {}\n")], &["TestFoo"], true, &[], true);
    let expected = vec![resolved("func TestFoo(t *testing.T)", "src/repo_test.go")];
    assert_eq!(expected, resolver.resolve("TestFoo"));
}

#[test]
fn should_exclude_ast_test_definition_from_index_by_default() {
    let source = "\
#[cfg(test)]
mod tests {
    #[test]
    fn should_add_two_numbers() {}
}
";
    let resolver = index(&[("src/lib.rs", source)], &["should_add_two_numbers"], false, &[], true);
    let expected: Vec<ResolvedSymbol> = Vec::new();
    assert_eq!(expected, resolver.resolve("should_add_two_numbers"));
}

#[test]
fn should_exclude_file_marked_generated_by_attribute_path_from_index_by_default() {
    let resolver = index(
        &[("models/user.go", "package models\n\nfunc Foo() int {\n\treturn 1\n}\n")],
        &["Foo"],
        false,
        &["models/user.go"],
        false,
    );
    let expected: Vec<ResolvedSymbol> = Vec::new();
    assert_eq!(expected, resolver.resolve("Foo"));
}

#[test]
fn should_exclude_file_with_generated_content_marker_from_index_by_default() {
    let source = "\
// Code generated by SQLBoiler 4.19.5. DO NOT EDIT.

package models

func Foo() int {
\treturn 1
}
";
    let resolver = index(&[("models/user.go", source)], &["Foo"], false, &[], false);
    let expected: Vec<ResolvedSymbol> = Vec::new();
    assert_eq!(expected, resolver.resolve("Foo"));
}

#[test]
fn should_include_generated_file_in_index_when_include_generated_is_true() {
    let source = "\
// Code generated by SQLBoiler 4.19.5. DO NOT EDIT.

package models

func Foo() int {
\treturn 1
}
";
    let resolver = index(&[("models/user.go", source)], &["Foo"], false, &["models/user.go"], true);
    let expected = vec![resolved("func Foo() int", "models/user.go")];
    assert_eq!(expected, resolver.resolve("Foo"));
}

#[test]
fn should_still_index_ordinary_files_when_a_generated_file_is_excluded() {
    let resolver = index(
        &[
            ("models/user.go", "// Code generated by tool. DO NOT EDIT.\n\npackage models\n\nfunc Foo() int {\n\treturn 1\n}\n"),
            ("src/lib.rs", "fn helper() -> i32 {\n    1\n}\n"),
        ],
        &["Foo", "helper"],
        false,
        &[],
        false,
    );
    let expected_foo: Vec<ResolvedSymbol> = Vec::new();
    let expected_helper = vec![resolved("fn helper() -> i32", "src/lib.rs")];
    assert_eq!(expected_foo, resolver.resolve("Foo"));
    assert_eq!(expected_helper, resolver.resolve("helper"));
}

#[test]
fn should_still_index_production_symbols_in_a_file_that_also_has_ast_test_definitions() {
    let source = "\
fn add(a: i32, b: i32) -> i32 {
    a + b
}

#[cfg(test)]
mod tests {
    #[test]
    fn should_add_two_numbers() {}
}
";
    let resolver = index(&[("src/lib.rs", source)], &["add"], false, &[], true);
    let expected = vec![resolved("fn add(a: i32, b: i32) -> i32", "src/lib.rs")];
    assert_eq!(expected, resolver.resolve("add"));
}

#[test]
fn should_skip_file_with_unsupported_language_when_building_index() {
    let resolver = index(&[("src/notes.txt", "helper is defined here")], &["helper"], false, &[], true);
    let expected: Vec<ResolvedSymbol> = Vec::new();
    assert_eq!(expected, resolver.resolve("helper"));
}

#[test]
fn should_index_definitions_across_multiple_languages() {
    let resolver = index(
        &[
            ("src/lib.rs", "fn helper() -> i32 {\n    1\n}\n"),
            ("repo.go", "package main\n\nfunc greet() string {\n\treturn \"hi\"\n}\n"),
        ],
        &["helper", "greet"],
        false,
        &[],
        true,
    );
    let expected = vec![resolved("func greet() string", "repo.go")];
    assert_eq!(expected, resolver.resolve("greet"));
}

#[test]
fn deps_should_index_definitions_from_file_containing_a_referenced_name() {
    let resolver = index(&[("src/lib.rs", "fn helper(x: i32) -> i32 {\n    x\n}\n")], &["helper"], false, &[], true);
    let expected = vec![resolved("fn helper(x: i32) -> i32", "src/lib.rs")];
    assert_eq!(expected, resolver.resolve("helper"));
}

#[test]
fn deps_should_skip_indexing_file_whose_content_contains_no_referenced_name() {
    let resolver = index(&[("src/other.rs", "fn unrelated() -> i32 {\n    1\n}\n")], &["helper"], false, &[], true);
    let expected: Vec<ResolvedSymbol> = Vec::new();
    assert_eq!(expected, resolver.resolve("unrelated"));
}

#[test]
fn deps_should_still_index_file_when_referenced_name_appears_incidentally_in_content() {
    let resolver = index(
        &[("src/lib.rs", "fn wrapper() -> i32 {\n    helper()\n}\n\nfn helper() -> i32 {\n    1\n}\n")],
        &["helper"],
        false,
        &[],
        true,
    );
    let expected = vec![resolved("fn helper() -> i32", "src/lib.rs")];
    assert_eq!(expected, resolver.resolve("helper"));
}

#[test]
fn deps_should_index_nothing_when_reference_names_is_empty() {
    let resolver = index(&[("src/lib.rs", "fn helper() -> i32 {\n    1\n}\n")], &[], false, &[], true);
    let expected: Vec<ResolvedSymbol> = Vec::new();
    assert_eq!(expected, resolver.resolve("helper"));
}

#[test]
fn prefilter_should_index_definitions_from_file_containing_a_referenced_name() {
    let resolver = index(&[("src/lib.rs", "fn helper(x: i32) -> i32 {\n    x\n}\n")], &["helper"], false, &[], true);
    let expected = vec![resolved("fn helper(x: i32) -> i32", "src/lib.rs")];
    assert_eq!(expected, resolver.resolve("helper"));
}

#[test]
fn prefilter_should_skip_indexing_file_whose_content_contains_no_referenced_name() {
    let resolver = index(&[("src/other.rs", "fn unrelated() -> i32 {\n    1\n}\n")], &["helper"], false, &[], true);
    let expected: Vec<ResolvedSymbol> = Vec::new();
    assert_eq!(expected, resolver.resolve("unrelated"));
}

#[test]
fn prefilter_should_still_index_file_when_referenced_name_appears_incidentally_in_content() {
    let resolver = index(
        &[("src/lib.rs", "fn wrapper() -> i32 {\n    helper()\n}\n\nfn helper() -> i32 {\n    1\n}\n")],
        &["helper"],
        false,
        &[],
        true,
    );
    let expected = vec![resolved("fn helper() -> i32", "src/lib.rs")];
    assert_eq!(expected, resolver.resolve("helper"));
}

#[test]
fn prefilter_should_index_nothing_when_reference_names_is_empty() {
    let resolver = index(&[("src/lib.rs", "fn helper() -> i32 {\n    1\n}\n")], &[], false, &[], true);
    let expected: Vec<ResolvedSymbol> = Vec::new();
    assert_eq!(expected, resolver.resolve("helper"));
}

#[test]
fn tags_resolver_indexing_should_return_empty_vec_when_name_has_no_definition_in_repo() {
    let resolver =
        index(&[("src/lib.rs", "fn helper(x: i32) -> i32 {\n    x\n}\n")], &["helper", "i32"], false, &[], true);
    let expected: Vec<ResolvedSymbol> = Vec::new();
    assert_eq!(expected, resolver.resolve("i32"));
}

#[test]
fn tags_resolver_indexing_should_return_all_matches_when_name_is_defined_multiple_times() {
    let resolver = index(
        &[("src/a.rs", "fn helper() -> i32 {\n    1\n}\n"), ("src/b.rs", "fn helper() -> i32 {\n    2\n}\n")],
        &["helper"],
        false,
        &[],
        true,
    );
    let mut expected = vec![resolved("fn helper() -> i32", "src/a.rs"), resolved("fn helper() -> i32", "src/b.rs")];
    let mut actual = resolver.resolve("helper");
    expected.sort_by(|a, b| a.path.cmp(&b.path));
    actual.sort_by(|a, b| a.path.cmp(&b.path));
    assert_eq!(expected, actual);
}

#[test]
fn tags_resolver_indexing_should_resolve_type_reference_when_type_is_defined_in_repo() {
    let resolver = index(&[("src/point.rs", "struct Point {\n    x: i32,\n}\n")], &["Point"], false, &[], true);
    let expected = vec![resolved("struct Point { x: i32, }", "src/point.rs")];
    assert_eq!(expected, resolver.resolve("Point"));
}

#[test]
fn tags_resolver_indexing_should_resolve_function_call_when_callee_is_defined_in_repo() {
    let resolver = index(&[("src/lib.rs", "fn helper(x: i32) -> i32 {\n    x\n}\n")], &["helper"], false, &[], true);
    let expected = vec![resolved("fn helper(x: i32) -> i32", "src/lib.rs")];
    assert_eq!(expected, resolver.resolve("helper"));
}
