use rinkaku::language::{
    language_for_path, GoSupport, HclSupport, Language, PythonSupport, RustSupport, TsxSupport,
    TypeScriptSupport,
};

#[test]
fn should_report_go_as_name() {
    let support = GoSupport;

    assert_eq!("go", support.name());
}

#[test]
fn should_report_hcl_as_name() {
    let support = HclSupport;

    assert_eq!("hcl", support.name());
}

#[test]
fn should_report_python_as_name() {
    let support = PythonSupport;

    assert_eq!("python", support.name());
}

#[test]
fn should_report_rust_as_name() {
    let support = RustSupport;

    assert_eq!("rust", support.name());
}

#[test]
fn should_report_typescript_as_name() {
    let support = TypeScriptSupport;

    assert_eq!("typescript", support.name());
}

#[test]
fn should_report_typescript_as_name_for_tsx() {
    let support = TsxSupport;

    assert_eq!("typescript", support.name());
}

#[test]
fn mod_should_return_rust_support_when_path_has_rs_extension() {
    let actual = language_for_path("src/main.rs");

    let support = actual.expect("expected a supported language for this path");
    assert_eq!("rust", support.name());
}

#[test]
fn mod_should_return_go_support_when_path_has_go_extension() {
    let actual = language_for_path("src/main.go");

    let support = actual.expect("expected a supported language for this path");
    assert_eq!("go", support.name());
}

#[test]
fn should_return_python_support_when_path_has_py_extension() {
    let actual = language_for_path("src/main.py");

    let support = actual.expect("expected a supported language for this path");
    assert_eq!("python", support.name());
}

#[test]
fn should_return_typescript_support_when_path_has_ts_extension() {
    let actual = language_for_path("src/main.ts");

    let support = actual.expect("expected a supported language for this path");
    assert_eq!("typescript", support.name());
}

#[test]
fn should_return_tsx_support_when_path_has_tsx_extension() {
    let actual = language_for_path("src/Component.tsx");

    let support = actual.expect("expected a supported language for this path");
    assert_eq!("typescript", support.name());
}

#[test]
fn mod_should_return_none_when_extension_is_unknown() {
    let actual = language_for_path("src/main.xyz");

    assert!(actual.is_none());
}

#[test]
fn mod_should_return_none_when_path_has_no_extension() {
    let actual = language_for_path("Makefile");

    assert!(actual.is_none());
}

#[test]
fn should_return_none_when_path_is_plain_hcl_dialect() {
    let actual = language_for_path("nomad/job.hcl");

    assert!(actual.is_none());
}

#[test]
fn should_return_none_when_filename_is_bare_rs() {
    assert!(language_for_path("rs").is_none());
}

#[test]
fn should_return_none_when_filename_is_bare_go() {
    assert!(language_for_path("go").is_none());
}

#[test]
fn should_return_none_when_filename_is_bare_py() {
    assert!(language_for_path("py").is_none());
}

#[test]
fn should_return_none_when_filename_is_bare_ts() {
    assert!(language_for_path("ts").is_none());
}

#[test]
fn should_return_none_when_filename_is_bare_tsx() {
    assert!(language_for_path("tsx").is_none());
}

#[test]
fn should_return_hcl_support_when_path_has_tf_suffix() {
    let support = language_for_path("envs/prod/main.tf").expect("expected HCL support for a Terraform path");
    assert_eq!("hcl", support.name());
    assert_eq!(Language::Hcl, support);
}

#[test]
fn should_return_hcl_support_when_path_has_tofu_suffix() {
    let support = language_for_path("envs/prod/main.tofu").expect("expected HCL support for a Terraform path");
    assert_eq!("hcl", support.name());
    assert_eq!(Language::Hcl, support);
}

#[test]
fn should_return_hcl_support_when_path_has_tftest_hcl_suffix() {
    let support = language_for_path("tests/plan.tftest.hcl").expect("expected HCL support for a Terraform path");
    assert_eq!("hcl", support.name());
    assert_eq!(Language::Hcl, support);
}

#[test]
fn hcl_should_return_true_when_path_ends_with_tftest_hcl() {
    let support = HclSupport;

    let actual = support.is_test_path("tests/plan.tftest.hcl");

    assert_eq!(true, actual);
}

#[test]
fn hcl_should_return_false_when_path_is_tf_file() {
    let support = HclSupport;

    let actual = support.is_test_path("main.tf");

    assert_eq!(false, actual);
}

#[test]
fn hcl_should_return_false_when_path_is_tofu_file() {
    let support = HclSupport;

    let actual = support.is_test_path("main.tofu");

    assert_eq!(false, actual);
}

#[test]
fn python_should_return_true_when_filename_starts_with_test_prefix() {
    let support = PythonSupport;

    let actual = support.is_test_path("test_repo.py");

    assert_eq!(true, actual);
}

#[test]
fn python_should_return_true_when_filename_ends_with_test_suffix() {
    let support = PythonSupport;

    let actual = support.is_test_path("repo_test.py");

    assert_eq!(true, actual);
}

#[test]
fn python_should_return_true_when_path_has_tests_directory_segment() {
    let support = PythonSupport;

    let actual = support.is_test_path("src/tests/factories.py");

    assert_eq!(true, actual);
}

#[test]
fn python_should_return_true_when_tests_directory_is_nested() {
    let support = PythonSupport;

    let actual = support.is_test_path("tests/unit/factories.py");

    assert_eq!(true, actual);
}

#[test]
fn python_should_return_false_when_path_is_ordinary_module() {
    let support = PythonSupport;

    let actual = support.is_test_path("src/repo.py");

    assert_eq!(false, actual);
}

#[test]
fn python_should_return_false_when_filename_merely_contains_test_substring() {
    let support = PythonSupport;

    let actual = support.is_test_path("src/contest.py");

    assert_eq!(false, actual);
}

#[test]
fn rust_should_return_true_when_path_has_tests_directory_segment() {
    let support = RustSupport;

    let actual = support.is_test_path("tests/integration.rs");

    assert_eq!(true, actual);
}

#[test]
fn rust_should_return_true_when_tests_directory_is_nested() {
    let support = RustSupport;

    let actual = support.is_test_path("crate/tests/it.rs");

    assert_eq!(true, actual);
}

#[test]
fn rust_should_return_false_when_path_is_ordinary_module() {
    let support = RustSupport;

    let actual = support.is_test_path("src/lib.rs");

    assert_eq!(false, actual);
}

#[test]
fn rust_should_return_false_when_filename_merely_contains_test_substring() {
    let support = RustSupport;

    let actual = support.is_test_path("src/contest.rs");

    assert_eq!(false, actual);
}

#[test]
fn rust_should_return_true_when_path_has_underscore_tests_directory_segment() {
    let support = RustSupport;

    let actual = support.is_test_path("rinkaku-tui/src/nav_tests/mod.rs");

    assert_eq!(true, actual);
}

#[test]
fn rust_should_return_true_when_underscore_tests_directory_is_deeply_nested() {
    let support = RustSupport;

    let actual = support.is_test_path("rinkaku-tui/src/tree/tree_tests/tests_section.rs");

    assert_eq!(true, actual);
}

#[test]
fn rust_should_return_true_when_underscore_tests_is_the_file_stem() {
    let support = RustSupport;

    let actual = support.is_test_path("src/foo_tests.rs");

    assert_eq!(true, actual);
}

#[test]
fn rust_should_return_true_when_tests_is_the_bare_file_stem() {
    let support = RustSupport;

    let actual = support.is_test_path("src/tests.rs");

    assert_eq!(true, actual);
}

#[test]
fn rust_should_return_false_when_filename_merely_ends_in_tests_substring() {
    let support = RustSupport;

    let actual = support.is_test_path("src/latest_stats.rs");

    assert_eq!(false, actual);
}

#[test]
fn rust_should_return_false_when_directory_merely_contains_tests_substring() {
    let support = RustSupport;

    let actual = support.is_test_path("src/contests/mod.rs");

    assert_eq!(false, actual);
}

#[test]
fn typescript_should_return_true_when_filename_has_test_ts_suffix() {
    let support = TypeScriptSupport;

    let actual = support.is_test_path("repo.test.ts");

    assert_eq!(true, actual);
}

#[test]
fn typescript_should_return_true_when_filename_has_test_tsx_suffix() {
    let support = TypeScriptSupport;

    let actual = support.is_test_path("Repo.test.tsx");

    assert_eq!(true, actual);
}

#[test]
fn typescript_should_return_true_when_filename_has_spec_ts_suffix() {
    let support = TypeScriptSupport;

    let actual = support.is_test_path("repo.spec.ts");

    assert_eq!(true, actual);
}

#[test]
fn typescript_should_return_true_when_filename_has_spec_tsx_suffix() {
    let support = TypeScriptSupport;

    let actual = support.is_test_path("Repo.spec.tsx");

    assert_eq!(true, actual);
}

#[test]
fn typescript_should_return_true_when_path_has_tests_directory_segment() {
    let support = TypeScriptSupport;

    let actual = support.is_test_path("src/__tests__/factories.ts");

    assert_eq!(true, actual);
}

#[test]
fn typescript_should_return_false_when_path_is_ordinary_module() {
    let support = TypeScriptSupport;

    let actual = support.is_test_path("src/repo.ts");

    assert_eq!(false, actual);
}

#[test]
fn typescript_should_return_false_when_filename_merely_contains_test_substring() {
    let support = TypeScriptSupport;

    let actual = support.is_test_path("src/contest.ts");

    assert_eq!(false, actual);
}

#[test]
fn go_should_treat_only_underscore_test_go_files_as_test_paths() {
    let support = GoSupport;

    assert!(support.is_test_path("pkg/repo_test.go"));
    assert!(!support.is_test_path("pkg/repo.go"));
    assert!(!support.is_test_path("pkg/testdata/repo.go"));
}

#[test]
fn tsx_should_share_typescript_test_conventions() {
    let support = TsxSupport;

    assert!(support.is_test_path("src/Button.test.tsx"));
    assert!(support.is_test_path("src/__tests__/Button.tsx"));
    assert!(!support.is_test_path("src/Button.tsx"));
}

#[test]
fn language_should_return_rust_support_when_path_has_rs_extension() {
    let actual = language_for_path("src/main.rs");

    let support = actual.expect("expected Some(Language) for .rs path");
    assert_eq!("rust", support.name());
}

#[test]
fn language_should_return_go_support_when_path_has_go_extension() {
    let actual = language_for_path("src/main.go");

    let support = actual.expect("expected Some(Language) for .go path");
    assert_eq!("go", support.name());
}

#[test]
fn language_should_return_none_when_extension_is_unknown() {
    let actual = language_for_path("src/main.xyz");

    assert!(actual.is_none());
}

#[test]
fn language_should_return_none_when_path_has_no_extension() {
    let actual = language_for_path("Makefile");

    assert!(actual.is_none());
}
