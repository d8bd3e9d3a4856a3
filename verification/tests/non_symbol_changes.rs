use rinkaku::non_symbol_changes::{compute_non_symbol_changes, NonSymbolChange};

#[test]
fn should_return_empty_when_no_files_given() {
    let files: Vec<(String, usize)> = vec![];

    let expected: Vec<NonSymbolChange> = vec![];
    let actual = compute_non_symbol_changes(&files);

    assert_eq!(expected, actual);
}

#[test]
fn should_build_one_entry_per_file() {
    let files = vec![("src/index.ts".to_string(), 12)];

    let expected = vec![NonSymbolChange {
        path: "src/index.ts".to_string(),
        changed_line_count: 12,
    }];
    let actual = compute_non_symbol_changes(&files);

    assert_eq!(expected, actual);
}

#[test]
fn should_sort_entries_by_path_ascending() {
    let files = vec![
        ("z.py".to_string(), 3),
        ("a.py".to_string(), 5),
        ("m.py".to_string(), 1),
    ];

    let expected = vec![
        NonSymbolChange {
            path: "a.py".to_string(),
            changed_line_count: 5,
        },
        NonSymbolChange {
            path: "m.py".to_string(),
            changed_line_count: 1,
        },
        NonSymbolChange {
            path: "z.py".to_string(),
            changed_line_count: 3,
        },
    ];
    let actual = compute_non_symbol_changes(&files);

    assert_eq!(expected, actual);
}
