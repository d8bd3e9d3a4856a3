use rinkaku::diff::{parse_unified_diff, ChangeKind, ChangedFile, LineRange, ParseError};




#[test]
fn should_return_single_added_range_when_modifying_one_hunk() {
    let input = "\
diff --git a/src/lib.rs b/src/lib.rs
index e69de29..4b825dc 100644
--- a/src/lib.rs
+++ b/src/lib.rs
@@ -1,3 +1,5 @@
 fn a() {}
+fn b() {}
+fn c() {}
 fn d() {}
 fn e() {}
";
    let expected = vec![ChangedFile {
        path: "src/lib.rs".to_string(),
        old_path: None,
        kind: ChangeKind::Modified,
        changed_ranges: vec![LineRange { start: 2, end: 3 }],
        is_binary: false,
    }];
    let actual = parse_unified_diff(input).expect("parse should succeed");
    assert_eq!(expected, actual);
}

#[test]
fn should_merge_adjacent_added_lines_across_multiple_hunks() {
    let input = "\
diff --git a/src/lib.rs b/src/lib.rs
index e69de29..4b825dc 100644
--- a/src/lib.rs
+++ b/src/lib.rs
@@ -1,3 +1,4 @@
 fn a() {}
+fn b() {}
 fn c() {}
 fn d() {}
@@ -10,2 +11,4 @@
 fn x() {}
+fn y() {}
+fn z() {}
 fn w() {}
";
    let expected = vec![ChangedFile {
        path: "src/lib.rs".to_string(),
        old_path: None,
        kind: ChangeKind::Modified,
        changed_ranges: vec![
            LineRange { start: 2, end: 2 },
            LineRange { start: 12, end: 13 },
        ],
        is_binary: false,
    }];
    let actual = parse_unified_diff(input).expect("parse should succeed");
    assert_eq!(expected, actual);
}

#[test]
fn should_mark_kind_added_when_file_is_new() {
    let input = "\
diff --git a/src/new.rs b/src/new.rs
new file mode 100644
index 0000000..4b825dc
--- /dev/null
+++ b/src/new.rs
@@ -0,0 +1,2 @@
+fn a() {}
+fn b() {}
";
    let expected = vec![ChangedFile {
        path: "src/new.rs".to_string(),
        old_path: None,
        kind: ChangeKind::Added,
        changed_ranges: vec![LineRange { start: 1, end: 2 }],
        is_binary: false,
    }];
    let actual = parse_unified_diff(input).expect("parse should succeed");
    assert_eq!(expected, actual);
}

#[test]
fn should_mark_kind_deleted_with_no_changed_ranges_when_file_is_removed() {
    let input = "\
diff --git a/src/old.rs b/src/old.rs
deleted file mode 100644
index 4b825dc..0000000
--- a/src/old.rs
+++ /dev/null
@@ -1,2 +0,0 @@
-fn a() {}
-fn b() {}
";
    let expected = vec![ChangedFile {
        path: "src/old.rs".to_string(),
        old_path: None,
        kind: ChangeKind::Deleted,
        changed_ranges: vec![],
        is_binary: false,
    }];
    let actual = parse_unified_diff(input).expect("parse should succeed");
    assert_eq!(expected, actual);
}

#[test]
fn should_set_old_path_and_changed_ranges_when_file_is_renamed_with_content_change() {
    let input = "\
diff --git a/src/old_name.rs b/src/new_name.rs
similarity index 90%
rename from src/old_name.rs
rename to src/new_name.rs
index e69de29..4b825dc 100644
--- a/src/old_name.rs
+++ b/src/new_name.rs
@@ -1,2 +1,3 @@
 fn a() {}
+fn b() {}
 fn c() {}
";
    let expected = vec![ChangedFile {
        path: "src/new_name.rs".to_string(),
        old_path: Some("src/old_name.rs".to_string()),
        kind: ChangeKind::Renamed,
        changed_ranges: vec![LineRange { start: 2, end: 2 }],
        is_binary: false,
    }];
    let actual = parse_unified_diff(input).expect("parse should succeed");
    assert_eq!(expected, actual);
}

#[test]
fn should_return_empty_changed_ranges_when_rename_is_pure_with_no_hunks() {
    let input = "\
diff --git a/src/old_name.rs b/src/new_name.rs
similarity index 100%
rename from src/old_name.rs
rename to src/new_name.rs
";
    let expected = vec![ChangedFile {
        path: "src/new_name.rs".to_string(),
        old_path: Some("src/old_name.rs".to_string()),
        kind: ChangeKind::Renamed,
        changed_ranges: vec![],
        is_binary: false,
    }];
    let actual = parse_unified_diff(input).expect("parse should succeed");
    assert_eq!(expected, actual);
}

#[test]
fn should_flag_is_binary_and_have_no_changed_ranges_when_file_is_binary() {
    let input = "\
diff --git a/assets/logo.png b/assets/logo.png
index e69de29..4b825dc 100644
Binary files a/assets/logo.png and b/assets/logo.png differ
";
    let expected = vec![ChangedFile {
        path: "assets/logo.png".to_string(),
        old_path: None,
        kind: ChangeKind::Modified,
        changed_ranges: vec![],
        is_binary: true,
    }];
    let actual = parse_unified_diff(input).expect("parse should succeed");
    assert_eq!(expected, actual);
}

#[test]
fn should_ignore_no_newline_marker_when_computing_changed_ranges() {
    let input = "\
diff --git a/src/lib.rs b/src/lib.rs
index e69de29..4b825dc 100644
--- a/src/lib.rs
+++ b/src/lib.rs
@@ -1,2 +1,2 @@
 fn a() {}
-fn b() {}
\\ No newline at end of file
+fn b2() {}
\\ No newline at end of file
";
    let expected = vec![ChangedFile {
        path: "src/lib.rs".to_string(),
        old_path: None,
        kind: ChangeKind::Modified,
        changed_ranges: vec![LineRange { start: 2, end: 2 }],
        is_binary: false,
    }];
    let actual = parse_unified_diff(input).expect("parse should succeed");
    assert_eq!(expected, actual);
}

#[test]
fn should_parse_multiple_files_in_one_diff() {
    let input = "\
diff --git a/src/a.rs b/src/a.rs
index e69de29..4b825dc 100644
--- a/src/a.rs
+++ b/src/a.rs
@@ -1,1 +1,2 @@
 fn a() {}
+fn a2() {}
diff --git a/src/b.rs b/src/b.rs
index e69de29..4b825dc 100644
--- a/src/b.rs
+++ b/src/b.rs
@@ -1,1 +1,2 @@
 fn b() {}
+fn b2() {}
";
    let expected = vec![
        ChangedFile {
            path: "src/a.rs".to_string(),
            old_path: None,
            kind: ChangeKind::Modified,
            changed_ranges: vec![LineRange { start: 2, end: 2 }],
            is_binary: false,
        },
        ChangedFile {
            path: "src/b.rs".to_string(),
            old_path: None,
            kind: ChangeKind::Modified,
            changed_ranges: vec![LineRange { start: 2, end: 2 }],
            is_binary: false,
        },
    ];
    let actual = parse_unified_diff(input).expect("parse should succeed");
    assert_eq!(expected, actual);
}

// Regression test for a bug where a hunk header's declared new_count was
// larger than the actual hunk body, causing the parser to walk past the
// end of the hunk and swallow the next file's `diff --git` line as a
// context line. This made the second file disappear from the result
// entirely instead of surfacing a parse error.
#[test]
fn should_return_err_when_hunk_body_is_shorter_than_declared_new_count() {
    let input = "\
diff --git a/src/a.rs b/src/a.rs
index e69de29..4b825dc 100644
--- a/src/a.rs
+++ b/src/a.rs
@@ -1,3 +1,100 @@
 fn a() {}
+fn a2() {}
diff --git a/src/b.rs b/src/b.rs
index e69de29..4b825dc 100644
--- a/src/b.rs
+++ b/src/b.rs
@@ -1,1 +1,2 @@
 fn b() {}
+fn b2() {}
";
    let actual = parse_unified_diff(input);
    assert!(matches!(actual, Err(ParseError::HunkBodyMismatch(_))));
}

// Regression test for a panic (debug build) / silent wraparound (release
// build) when new_line + new_count overflows usize. A malformed but
// syntactically valid-looking header must be rejected, not crash.
#[test]
fn should_return_err_when_hunk_header_line_numbers_overflow() {
    let input = "\
diff --git a/src/a.rs b/src/a.rs
index e69de29..4b825dc 100644
--- a/src/a.rs
+++ b/src/a.rs
@@ -1,3 +18446744073709551615,18446744073709551615 @@
 fn a() {}
";
    let actual = parse_unified_diff(input);
    assert!(matches!(actual, Err(ParseError::MalformedHunkHeader(_))));
}


#[test]
fn should_return_empty_vec_when_input_is_empty() {
    let expected: Vec<ChangedFile> = Vec::new();
    let actual = parse_unified_diff("").expect("parse should succeed");
    assert_eq!(expected, actual);
}

#[test]
fn should_error_when_hunk_header_is_missing_new_side_marker() {
    let input = "diff --git a/src/lib.rs b/src/lib.rs\nindex e69de29..4b825dc 100644\n--- a/src/lib.rs\n+++ b/src/lib.rs\n@@ -1,3 1,4 @@\n fn a() {}\n";
    let actual = parse_unified_diff(input);
    assert!(matches!(actual, Err(ParseError::MalformedHunkHeader(_))));
}

#[test]
fn should_error_when_hunk_header_has_non_numeric_line_number() {
    let input = "diff --git a/src/lib.rs b/src/lib.rs\nindex e69de29..4b825dc 100644\n--- a/src/lib.rs\n+++ b/src/lib.rs\n@@ -a,3 +1,4 @@\n fn a() {}\n";
    let actual = parse_unified_diff(input);
    assert!(matches!(actual, Err(ParseError::MalformedHunkHeader(_))));
}

#[test]
fn consecutive_changed_ranges_never_touch() {
    let diff = "\
diff --git a/src/lib.rs b/src/lib.rs
--- a/src/lib.rs
+++ b/src/lib.rs
@@ -1,3 +1,6 @@
 fn a() {}
+fn b() {}
+fn c() {}
 fn d() {}
+fn e() {}
 fn f() {}
";
    let files = parse_unified_diff(diff).expect("diff should parse");
    assert_eq!(vec![LineRange { start: 2, end: 3 }, LineRange { start: 5, end: 5 }], files[0].changed_ranges);
    for pair in files[0].changed_ranges.windows(2) {
        assert!(pair[0].end + 1 != pair[1].start);
    }
}

#[test]
fn changed_ranges_hold_exactly_the_added_lines() {
    let diff = "\
diff --git a/src/lib.rs b/src/lib.rs
--- a/src/lib.rs
+++ b/src/lib.rs
@@ -1,4 +1,5 @@
 fn a() {}
+fn b() {}
-fn gone() {}
+fn c() {}
 fn d() {}
\\ No newline at end of file
+fn e() {}
@@ -10,1 +11,2 @@
+fn g() {}
 fn h() {}
";
    let files = parse_unified_diff(diff).expect("diff should parse");
    let added: Vec<usize> = vec![2, 3, 5, 11];
    for line in 1..=12usize {
        let covered = files[0].changed_ranges.iter().any(|r| r.start <= line && line <= r.end);
        assert_eq!(added.contains(&line), covered, "line {line}");
    }
    assert!(files[0].changed_ranges.iter().all(|r| r.start <= r.end));
}

#[test]
fn hunks_after_a_zero_context_deletion_hunk_are_still_read() {
    let diff = "\
diff --git a/src/lib.rs b/src/lib.rs
--- a/src/lib.rs
+++ b/src/lib.rs
@@ -2 +1,0 @@
-fn gone() {}
@@ -5,0 +5,2 @@
+fn a() {}
+fn b() {}
";
    let files = parse_unified_diff(diff).expect("diff should parse");
    assert_eq!(files.len(), 1);
    assert_eq!(vec![LineRange { start: 5, end: 6 }], files[0].changed_ranges);
}

#[test]
fn removed_lines_trailing_a_hunk_body_do_not_end_the_file() {
    let diff = "\
diff --git a/src/lib.rs b/src/lib.rs
--- a/src/lib.rs
+++ b/src/lib.rs
@@ -1,2 +1,1 @@
 fn x() {}
-fn y() {}
\\ No newline at end of file
@@ -10,1 +9,2 @@
 fn z() {}
+fn w() {}
diff --git a/src/other.rs b/src/other.rs
--- a/src/other.rs
+++ b/src/other.rs
@@ -1,0 +1,1 @@
+fn v() {}
";
    let files = parse_unified_diff(diff).expect("diff should parse");
    assert_eq!(files.len(), 2);
    assert_eq!(vec![LineRange { start: 10, end: 10 }], files[0].changed_ranges);
    assert_eq!(vec![LineRange { start: 1, end: 1 }], files[1].changed_ranges);
}

#[test]
fn each_file_carries_the_old_side_lines_its_hunks_remove() {
    let diff = "\
diff --git a/src/lib.rs b/src/lib.rs
index e69de29..4b825dc 100644
--- a/src/lib.rs
+++ b/src/lib.rs
@@ -1,7 +1,3 @@
 fn kept() -> i32 {
     1
 }
-
-fn old_helper() -> i32 {
-    2
-}
@@ -20,0 +16,1 @@
+fn added() {}
diff --git a/src/b.rs b/src/b.rs
--- a/src/b.rs
+++ b/src/b.rs
@@ -4 +4 @@
-fn x() {}
+fn y() {}
";
    let files = rinkaku::diff::parse_unified_diff_with_old_ranges(diff).expect("diff should parse");
    assert_eq!(files.len(), 2);
    assert_eq!(files[0].0, parse_unified_diff(diff).unwrap()[0]);
    assert_eq!(files[0].1, vec![LineRange { start: 4, end: 7 }]);
    assert_eq!(files[1].1, vec![LineRange { start: 4, end: 4 }]);
}

#[test]
fn should_populate_removed_when_a_hunk_only_removes_lines_with_no_additions_in_the_library() {
    let diff = "\
diff --git a/src/lib.rs b/src/lib.rs
index e69de29..4b825dc 100644
--- a/src/lib.rs
+++ b/src/lib.rs
@@ -1,7 +1,3 @@
 fn kept() -> i32 {
     1
 }
-
-fn old_helper() -> i32 {
-    2
-}
";
    let base_source = "\
fn kept() -> i32 {
    1
}

fn old_helper() -> i32 {
    2
}
";
    let files = rinkaku::diff::parse_unified_diff_with_old_ranges(diff).expect("diff should parse");
    let (file, old_ranges) = &files[0];
    assert!(file.changed_ranges.is_empty());
    let lang = rinkaku::language::language_for_path(&file.path).unwrap();
    let base = rinkaku::parse::extract_all_symbols_from_source(base_source, lang).unwrap();
    let mut head = Vec::new();
    let removed = rinkaku::extract::classify_symbols(&mut head, &base, old_ranges, &file.path);
    assert_eq!(removed.len(), 1);
    assert_eq!(removed[0].name, "old_helper");
    assert_eq!(removed[0].signature, "fn old_helper() -> i32");
    assert_eq!(removed[0].path, "src/lib.rs");
}

#[test]
fn should_populate_removed_when_a_base_symbol_has_no_head_side_match_in_the_library() {
    let diff = "\
diff --git a/src/lib.rs b/src/lib.rs
index e69de29..4b825dc 100644
--- a/src/lib.rs
+++ b/src/lib.rs
@@ -1,3 +1,3 @@
-fn old_name() -> i32 {
+fn new_name() -> i32 {
     1
 }
";
    let base_source = "\
fn old_name() -> i32 {
    1
}
";
    let head_source = "\
fn new_name() -> i32 {
    1
}
";
    let files = rinkaku::diff::parse_unified_diff_with_old_ranges(diff).expect("diff should parse");
    let (file, old_ranges) = &files[0];
    assert_eq!(old_ranges, &vec![LineRange { start: 1, end: 1 }]);
    let lang = rinkaku::language::language_for_path(&file.path).unwrap();
    let base = rinkaku::parse::extract_all_symbols_from_source(base_source, lang).unwrap();
    let mut head =
        rinkaku::parse::extract_changed_symbols_from_source(head_source, lang, &file.changed_ranges).unwrap();
    let removed = rinkaku::extract::classify_symbols(&mut head, &base, old_ranges, &file.path);
    assert_eq!(removed.len(), 1);
    assert_eq!(removed[0].name, "old_name");
    assert_eq!(removed[0].signature, "fn old_name() -> i32");
    assert_eq!(head[0].classification, Some(rinkaku::extract::Classification::Added));
}
