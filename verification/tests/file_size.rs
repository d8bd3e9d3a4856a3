use rinkaku::file_size::{
    classify_file_size, compute_file_size_bands, compute_file_size_warnings, FileSizeBand,
    FileSizeEntry, FileSizeSeverity, FileSizeWarning, NORMAL_LINE_THRESHOLD, SPLIT_LINE_THRESHOLD,
    WARN_LINE_THRESHOLD,
};

#[test]
fn should_return_empty_when_no_files_are_over_threshold() {
    let files = vec![
        ("small.rs".to_string(), 10),
        ("medium.rs".to_string(), WARN_LINE_THRESHOLD),
        ("empty.rs".to_string(), 0),
    ];

    let expected: Vec<FileSizeWarning> = vec![];
    let actual = compute_file_size_warnings(&files);

    assert_eq!(expected, actual);
}

#[test]
fn should_report_warn_when_line_count_is_above_warn_threshold() {
    let files = vec![("watch.rs".to_string(), WARN_LINE_THRESHOLD + 1)];

    let expected = vec![FileSizeWarning {
        path: "watch.rs".to_string(),
        line_count: WARN_LINE_THRESHOLD + 1,
        severity: FileSizeSeverity::Warn,
    }];
    let actual = compute_file_size_warnings(&files);

    assert_eq!(expected, actual);
}

#[test]
fn should_report_split_when_line_count_is_above_split_threshold() {
    let files = vec![("huge.rs".to_string(), SPLIT_LINE_THRESHOLD + 1)];

    let expected = vec![FileSizeWarning {
        path: "huge.rs".to_string(),
        line_count: SPLIT_LINE_THRESHOLD + 1,
        severity: FileSizeSeverity::Split,
    }];
    let actual = compute_file_size_warnings(&files);

    assert_eq!(expected, actual);
}

#[test]
fn should_not_report_when_line_count_equals_warn_threshold() {
    // The check is strictly greater. A file at exactly
    // WARN_LINE_THRESHOLD is not warned about; only WARN + 1 crosses.
    let files = vec![("edge.rs".to_string(), WARN_LINE_THRESHOLD)];

    let expected: Vec<FileSizeWarning> = vec![];
    let actual = compute_file_size_warnings(&files);

    assert_eq!(expected, actual);
}

#[test]
fn should_sort_split_before_warn() {
    // A `Warn` file with a higher line count than a `Split` file must
    // still sort after it: severity dominates line_count in the
    // ordering.
    let files = vec![
        ("small_warn.rs".to_string(), WARN_LINE_THRESHOLD + 100),
        ("big_split.rs".to_string(), SPLIT_LINE_THRESHOLD + 1),
    ];

    let expected = vec![
        FileSizeWarning {
            path: "big_split.rs".to_string(),
            line_count: SPLIT_LINE_THRESHOLD + 1,
            severity: FileSizeSeverity::Split,
        },
        FileSizeWarning {
            path: "small_warn.rs".to_string(),
            line_count: WARN_LINE_THRESHOLD + 100,
            severity: FileSizeSeverity::Warn,
        },
    ];
    let actual = compute_file_size_warnings(&files);

    assert_eq!(expected, actual);
}

#[test]
fn should_sort_by_line_count_desc_within_same_severity() {
    let files = vec![
        ("smaller.rs".to_string(), WARN_LINE_THRESHOLD + 10),
        ("bigger.rs".to_string(), WARN_LINE_THRESHOLD + 500),
        ("mid.rs".to_string(), WARN_LINE_THRESHOLD + 100),
    ];

    let expected = vec![
        FileSizeWarning {
            path: "bigger.rs".to_string(),
            line_count: WARN_LINE_THRESHOLD + 500,
            severity: FileSizeSeverity::Warn,
        },
        FileSizeWarning {
            path: "mid.rs".to_string(),
            line_count: WARN_LINE_THRESHOLD + 100,
            severity: FileSizeSeverity::Warn,
        },
        FileSizeWarning {
            path: "smaller.rs".to_string(),
            line_count: WARN_LINE_THRESHOLD + 10,
            severity: FileSizeSeverity::Warn,
        },
    ];
    let actual = compute_file_size_warnings(&files);

    assert_eq!(expected, actual);
}

#[test]
fn should_sort_by_path_asc_when_line_count_and_severity_match() {
    let files = vec![
        ("z.rs".to_string(), WARN_LINE_THRESHOLD + 42),
        ("a.rs".to_string(), WARN_LINE_THRESHOLD + 42),
        ("m.rs".to_string(), WARN_LINE_THRESHOLD + 42),
    ];

    let expected = vec![
        FileSizeWarning {
            path: "a.rs".to_string(),
            line_count: WARN_LINE_THRESHOLD + 42,
            severity: FileSizeSeverity::Warn,
        },
        FileSizeWarning {
            path: "m.rs".to_string(),
            line_count: WARN_LINE_THRESHOLD + 42,
            severity: FileSizeSeverity::Warn,
        },
        FileSizeWarning {
            path: "z.rs".to_string(),
            line_count: WARN_LINE_THRESHOLD + 42,
            severity: FileSizeSeverity::Warn,
        },
    ];
    let actual = compute_file_size_warnings(&files);

    assert_eq!(expected, actual);
}

#[test]
fn should_classify_normal_when_line_count_is_at_normal_threshold() {
    // Strictly-greater convention: exactly NORMAL_LINE_THRESHOLD stays
    // Normal, matching how WARN/SPLIT are strictly-greater too.
    let expected = FileSizeBand::Normal;
    let actual = classify_file_size(NORMAL_LINE_THRESHOLD);
    assert_eq!(expected, actual);
}

#[test]
fn should_classify_watch_when_line_count_is_above_normal_threshold() {
    let expected = FileSizeBand::Watch;
    let actual = classify_file_size(NORMAL_LINE_THRESHOLD + 1);
    assert_eq!(expected, actual);
}

#[test]
fn should_classify_watch_when_line_count_is_at_warn_threshold() {
    let expected = FileSizeBand::Watch;
    let actual = classify_file_size(WARN_LINE_THRESHOLD);
    assert_eq!(expected, actual);
}

#[test]
fn should_classify_warn_when_line_count_is_above_warn_threshold() {
    let expected = FileSizeBand::Warn;
    let actual = classify_file_size(WARN_LINE_THRESHOLD + 1);
    assert_eq!(expected, actual);
}

#[test]
fn should_classify_split_when_line_count_is_above_split_threshold() {
    let expected = FileSizeBand::Split;
    let actual = classify_file_size(SPLIT_LINE_THRESHOLD + 1);
    assert_eq!(expected, actual);
}

#[test]
fn should_return_none_severity_when_band_is_normal_or_watch() {
    assert_eq!(None, FileSizeBand::Normal.severity());
    assert_eq!(None, FileSizeBand::Watch.severity());
}

#[test]
fn should_return_matching_severity_when_band_is_warn_or_split() {
    assert_eq!(Some(FileSizeSeverity::Warn), FileSizeBand::Warn.severity());
    assert_eq!(
        Some(FileSizeSeverity::Split),
        FileSizeBand::Split.severity()
    );
}

#[test]
fn should_include_every_file_when_computing_bands_regardless_of_band() {
    let files = vec![
        ("normal.rs".to_string(), 10),
        ("watch.rs".to_string(), NORMAL_LINE_THRESHOLD + 1),
        ("warn.rs".to_string(), WARN_LINE_THRESHOLD + 1),
        ("split.rs".to_string(), SPLIT_LINE_THRESHOLD + 1),
    ];

    let expected = vec![
        FileSizeEntry {
            path: "normal.rs".to_string(),
            line_count: 10,
            band: FileSizeBand::Normal,
        },
        FileSizeEntry {
            path: "split.rs".to_string(),
            line_count: SPLIT_LINE_THRESHOLD + 1,
            band: FileSizeBand::Split,
        },
        FileSizeEntry {
            path: "warn.rs".to_string(),
            line_count: WARN_LINE_THRESHOLD + 1,
            band: FileSizeBand::Warn,
        },
        FileSizeEntry {
            path: "watch.rs".to_string(),
            line_count: NORMAL_LINE_THRESHOLD + 1,
            band: FileSizeBand::Watch,
        },
    ];
    let actual = compute_file_size_bands(&files);

    assert_eq!(expected, actual);
}

#[test]
fn should_return_empty_when_computing_bands_over_an_empty_file_list() {
    let files: Vec<(String, usize)> = vec![];

    let expected: Vec<FileSizeEntry> = vec![];
    let actual = compute_file_size_bands(&files);

    assert_eq!(expected, actual);
}

#[test]
fn warnings_are_exactly_the_warn_and_split_bands() {
    let files = vec![
        ("a.rs".to_string(), 5),
        ("b.rs".to_string(), NORMAL_LINE_THRESHOLD + 1),
        ("c.rs".to_string(), WARN_LINE_THRESHOLD + 1),
        ("d.rs".to_string(), SPLIT_LINE_THRESHOLD + 1),
    ];
    let warnings = compute_file_size_warnings(&files);
    let bands = compute_file_size_bands(&files);
    let mut from_bands: Vec<(String, FileSizeSeverity)> = bands
        .iter()
        .filter_map(|e| e.band.severity().map(|s| (e.path.clone(), s)))
        .collect();
    from_bands.sort_by(|a, b| a.0.cmp(&b.0));
    let mut from_warnings: Vec<(String, FileSizeSeverity)> =
        warnings.iter().map(|w| (w.path.clone(), w.severity)).collect();
    from_warnings.sort_by(|a, b| a.0.cmp(&b.0));
    assert_eq!(from_bands, from_warnings);
}
