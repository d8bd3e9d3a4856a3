//! Python extraction on real parses: comments inside a class signature.

use rinkaku::diff::LineRange;
use rinkaku::extract::{ExtractedSymbol, SymbolKind};
use rinkaku::language::PythonSupport;

fn extract_changed_symbols(source: &str, lang: &PythonSupport, changed_ranges: &[LineRange]) -> Vec<ExtractedSymbol> {
    rinkaku::parse::extract_changed_symbols_from_source(source, lang.language(), changed_ranges).unwrap()
}

#[test]
fn should_strip_comment_from_class_signature() {
    let source = "\
class Point:
    # a comment
    x: int
    y: int

    def __init__(self, x, y):
        self.x = x
        self.y = y
";
    let lang = PythonSupport;
    let changed_ranges = vec![LineRange { start: 4, end: 4 }];

    let expected = vec![ExtractedSymbol {
        id: String::new(),
        name: "Point".to_string(),
        kind: SymbolKind::Class,
        signature: "class Point:\n\n    x: int\n    y: int".to_string(),
        range: LineRange { start: 1, end: 8 },
        container: None,
        referenced_names: vec!["int".to_string()],
        dependencies: vec![],
        omitted_dependency_matches: 0,
        is_test: false,
        classification: None,
        previous_signature: None,
    }];
    let actual = extract_changed_symbols(source, &lang, &changed_ranges);

    assert_eq!(expected, actual);
}

