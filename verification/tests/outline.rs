use rinkaku::diff::LineRange;
use rinkaku::extract::signature::slice_signature;
use rinkaku::extract::symbols::{build_symbol, find_container};
use rinkaku::extract::{extract_all_symbols, extract_changed_symbols, Definition, SymbolKind};
use rinkaku::language::rust::is_test_definition;
use rinkaku::language::Language;
use rinkaku::tree::{SyntaxNode, SyntaxTree};

/// A node to lay out: its kind, the field it fills, whether it is named,
/// the text it spans (found in the source after its previous sibling),
/// and its children.
struct Spec {
    kind: &'static str,
    field: Option<&'static str>,
    named: bool,
    text: &'static str,
    kids: Vec<Spec>,
}

fn n(kind: &'static str, text: &'static str, kids: Vec<Spec>) -> Spec {
    Spec { kind, field: None, named: true, text, kids }
}

fn f(field: &'static str, mut spec: Spec) -> Spec {
    spec.field = Some(field);
    spec
}

fn anon(text: &'static str) -> Spec {
    Spec { kind: text, field: None, named: false, text, kids: Vec::new() }
}

fn char_index(source: &str, text: &str, from: usize) -> usize {
    let chars: Vec<char> = source.chars().collect();
    let want: Vec<char> = text.chars().collect();
    let mut i = from;
    while i + want.len() <= chars.len() {
        if chars[i..i + want.len()] == want[..] {
            return i;
        }
        i += 1;
    }
    panic!("{text:?} not found in the source");
}

fn row_at(source: &str, index: usize) -> usize {
    source.chars().take(index).filter(|c| *c == '\n').count()
}

fn lay_out(source: &str, spec: &Spec, parent: Option<usize>, from: usize, nodes: &mut Vec<SyntaxNode>) -> usize {
    let start = char_index(source, spec.text, from);
    let end = start + spec.text.chars().count();
    let index = nodes.len();
    nodes.push(SyntaxNode {
        kind: spec.kind.to_string(),
        field: spec.field.map(|s| s.to_string()),
        named: spec.named,
        start,
        end,
        start_row: row_at(source, start),
        end_row: row_at(source, end),
        parent,
        children: Vec::new(),
    });
    let mut cursor = start;
    for kid in &spec.kids {
        let child = lay_out(source, kid, Some(index), cursor, nodes);
        cursor = nodes[child].end;
        nodes[index].children.push(child);
    }
    index
}

fn tree_of(source: &str, root: Spec) -> (SyntaxTree, Vec<char>) {
    let mut nodes = Vec::new();
    lay_out(source, &root, None, 0, &mut nodes);
    let tree = SyntaxTree { nodes };
    let chars: Vec<char> = source.chars().collect();
    assert!(tree.is_well_formed(chars.len()));
    (tree, chars)
}

fn index_of(tree: &SyntaxTree, kind: &str, nth: usize) -> usize {
    (0..tree.nodes.len()).filter(|i| tree.nodes[*i].kind == kind).nth(nth).expect("node of that kind")
}

fn def(node: usize, references: &[&str]) -> Definition {
    Definition { node, references: references.iter().map(|s| s.to_string()).collect() }
}

const TEST_FN: &str = "#[test]\nfn helper() {}\n";

fn test_fn_tree() -> (SyntaxTree, Vec<char>) {
    tree_of(
        TEST_FN,
        n(
            "source_file",
            TEST_FN,
            vec![
                n(
                    "attribute_item",
                    "#[test]",
                    vec![anon("#"), anon("["), n("attribute", "test", vec![n("identifier", "test", vec![])]), anon("]")],
                ),
                n(
                    "function_item",
                    "fn helper() {}",
                    vec![
                        anon("fn"),
                        f("name", n("identifier", "helper", vec![])),
                        f("parameters", n("parameters", "()", vec![anon("("), anon(")")])),
                        f("body", n("block", "{}", vec![anon("{"), anon("}")])),
                    ],
                ),
            ],
        ),
    )
}

#[test]
fn a_test_marked_rust_function_is_reported_as_a_test() {
    let (tree, chars) = test_fn_tree();
    let function = index_of(&tree, "function_item", 0);
    assert!(is_test_definition(&tree, &chars, function));
    let symbols = extract_all_symbols(&tree, &chars, &vec![def(function, &["x", "helper", "Vec", "Vec"])], Language::Rust);
    assert_eq!(1, symbols.len());
    let symbol = &symbols[0];
    assert_eq!("helper", symbol.name);
    assert_eq!(SymbolKind::Function, symbol.kind);
    assert_eq!("fn helper()", symbol.signature);
    assert_eq!(LineRange { start: 2, end: 2 }, symbol.range);
    assert_eq!(None, symbol.container);
    assert_eq!(vec!["Vec".to_string(), "helper".to_string()], symbol.referenced_names);
    assert!(symbol.is_test);
    assert!(symbol.id.is_empty() && symbol.dependencies.is_empty());
    assert_eq!(None, symbol.classification);
}

#[test]
fn only_rust_files_mark_tests() {
    let (tree, chars) = test_fn_tree();
    let function = index_of(&tree, "function_item", 0);
    let symbol = build_symbol(&tree, &chars, &def(function, &[]), Language::Go).expect("a function makes a symbol");
    assert!(!symbol.is_test);
}

fn leak(s: String) -> &'static str {
    Box::leak(s.into_boxed_str())
}

/// `#[cfg{args_text}]` before a module holding one function, with `args`
/// the items of the attribute's argument list.
fn cfg_module(args: Vec<Spec>, args_text: &str) -> (SyntaxTree, Vec<char>) {
    let source = leak(format!("#[cfg{args_text}]\nmod tests {{\n    fn helper() {{}}\n}}\n"));
    let attribute = n(
        "attribute_item",
        leak(format!("#[cfg{args_text}]")),
        vec![
            anon("#"),
            anon("["),
            n(
                "attribute",
                leak(format!("cfg{args_text}")),
                vec![n("identifier", "cfg", vec![]), f("arguments", n("token_tree", leak(args_text.to_string()), args))],
            ),
            anon("]"),
        ],
    );
    let module = n(
        "mod_item",
        "mod tests {\n    fn helper() {}\n}",
        vec![
            anon("mod"),
            f("name", n("identifier", "tests", vec![])),
            f(
                "body",
                n(
                    "declaration_list",
                    "{\n    fn helper() {}\n}",
                    vec![
                        anon("{"),
                        n(
                            "function_item",
                            "fn helper() {}",
                            vec![
                                anon("fn"),
                                f("name", n("identifier", "helper", vec![])),
                                f("parameters", n("parameters", "()", vec![anon("("), anon(")")])),
                                f("body", n("block", "{}", vec![anon("{"), anon("}")])),
                            ],
                        ),
                        anon("}"),
                    ],
                ),
            ),
        ],
    );
    tree_of(source, n("source_file", source, vec![attribute, module]))
}

#[test]
fn a_function_inside_a_cfg_test_module_is_a_test() {
    let (tree, chars) = cfg_module(vec![anon("("), n("identifier", "test", vec![]), anon(")")], "(test)");
    let function = index_of(&tree, "function_item", 0);
    assert!(is_test_definition(&tree, &chars, function));
}

#[test]
fn cfg_all_of_test_enables_on_test_and_cfg_not_test_does_not() {
    let inner = n(
        "token_tree",
        "(test, unix)",
        vec![anon("("), n("identifier", "test", vec![]), anon(","), n("identifier", "unix", vec![]), anon(")")],
    );
    let (tree, chars) = cfg_module(
        vec![anon("("), n("identifier", "all", vec![]), inner, anon(")")],
        "(all(test, unix))",
    );
    let function = index_of(&tree, "function_item", 0);
    assert!(is_test_definition(&tree, &chars, function));

    let inner = n("token_tree", "(test)", vec![anon("("), n("identifier", "test", vec![]), anon(")")]);
    let (tree, chars) = cfg_module(
        vec![anon("("), n("identifier", "not", vec![]), inner, anon(")")],
        "(not(test))",
    );
    let function = index_of(&tree, "function_item", 0);
    assert!(!is_test_definition(&tree, &chars, function));

    let (tree, chars) = cfg_module(
        vec![
            anon("("),
            n("identifier", "feature", vec![]),
            anon("="),
            n("string_literal", "\"test\"", vec![]),
            anon(")"),
        ],
        "(feature = \"test\")",
    );
    let function = index_of(&tree, "function_item", 0);
    assert!(!is_test_definition(&tree, &chars, function));
}

const IMPL: &str = "impl Foo {\n    fn bar(&self) -> i32 { 1 }\n}\n";

fn impl_tree() -> (SyntaxTree, Vec<char>) {
    tree_of(
        IMPL,
        n(
            "source_file",
            IMPL,
            vec![n(
                "impl_item",
                "impl Foo {\n    fn bar(&self) -> i32 { 1 }\n}",
                vec![
                    anon("impl"),
                    f("type", n("type_identifier", "Foo", vec![])),
                    f(
                        "body",
                        n(
                            "declaration_list",
                            "{\n    fn bar(&self) -> i32 { 1 }\n}",
                            vec![
                                anon("{"),
                                n(
                                    "function_item",
                                    "fn bar(&self) -> i32 { 1 }",
                                    vec![
                                        anon("fn"),
                                        f("name", n("identifier", "bar", vec![])),
                                        f("parameters", n("parameters", "(&self)", vec![])),
                                        anon("->"),
                                        f("return_type", n("primitive_type", "i32", vec![])),
                                        f("body", n("block", "{ 1 }", vec![])),
                                    ],
                                ),
                                anon("}"),
                            ],
                        ),
                    ),
                ],
            )],
        ),
    )
}

#[test]
fn a_changed_method_is_reported_without_its_enclosing_impl() {
    let (tree, chars) = impl_tree();
    let imp = index_of(&tree, "impl_item", 0);
    let method = index_of(&tree, "function_item", 0);
    let defs = vec![def(imp, &[]), def(method, &["i32"])];
    let changed = extract_changed_symbols(&tree, &chars, &defs, Language::Rust, &[LineRange { start: 2, end: 2 }]);
    assert_eq!(1, changed.len());
    assert_eq!("bar", changed[0].name);
    assert_eq!(Some("impl Foo".to_string()), changed[0].container);
    assert_eq!("fn bar(&self) -> i32", changed[0].signature);
    assert!(!changed[0].is_test);

    assert!(extract_changed_symbols(&tree, &chars, &defs, Language::Rust, &[]).is_empty());
    assert!(extract_changed_symbols(&tree, &chars, &defs, Language::Rust, &[LineRange { start: 5, end: 9 }]).is_empty());
}

#[test]
fn extract_all_symbols_keeps_nested_definitions_and_drops_unreported_kinds() {
    let (tree, chars) = impl_tree();
    let imp = index_of(&tree, "impl_item", 0);
    let method = index_of(&tree, "function_item", 0);
    let all = extract_all_symbols(&tree, &chars, &vec![def(imp, &[]), def(method, &[])], Language::Rust);
    assert_eq!(1, all.len());
    assert_eq!("bar", all[0].name);
}

#[test]
fn a_comment_in_a_signature_is_cut() {
    let source = "fn foo(a: i32 /* c */) -> i32 { a }";
    let (tree, chars) = tree_of(
        source,
        n(
            "function_item",
            source,
            vec![
                anon("fn"),
                f("name", n("identifier", "foo", vec![])),
                f(
                    "parameters",
                    n(
                        "parameters",
                        "(a: i32 /* c */)",
                        vec![anon("("), n("parameter", "a: i32", vec![]), n("block_comment", "/* c */", vec![]), anon(")")],
                    ),
                ),
                anon("->"),
                f("return_type", n("primitive_type", "i32", vec![])),
                f("body", n("block", "{ a }", vec![])),
            ],
        ),
    );
    assert_eq!("fn foo(a: i32 ) -> i32", slice_signature(&tree, &chars, 0));
}

#[test]
fn a_class_signature_keeps_its_members_without_their_bodies() {
    let source = "class A:\n    def f(self):\n        return 1\n";
    let (tree, chars) = tree_of(
        source,
        n(
            "class_definition",
            "class A:\n    def f(self):\n        return 1",
            vec![
                anon("class"),
                f("name", n("identifier", "A", vec![])),
                anon(":"),
                f(
                    "body",
                    n(
                        "block",
                        "def f(self):\n        return 1",
                        vec![n(
                            "function_definition",
                            "def f(self):\n        return 1",
                            vec![
                                anon("def"),
                                f("name", n("identifier", "f", vec![])),
                                f("parameters", n("parameters", "(self)", vec![])),
                                anon(":"),
                                f("body", n("block", "return 1", vec![])),
                            ],
                        )],
                    ),
                ),
            ],
        ),
    );
    assert_eq!("class A: def f(self):", slice_signature(&tree, &chars, 0));
    let method = index_of(&tree, "function_definition", 0);
    assert_eq!(Some("class A".to_string()), find_container(&tree, &chars, method));
}

#[test]
fn a_go_method_is_contained_by_its_receiver_type() {
    let source = "func (r *Repo) Save() {}";
    let (tree, chars) = tree_of(
        source,
        n(
            "method_declaration",
            source,
            vec![
                anon("func"),
                f(
                    "receiver",
                    n(
                        "parameter_list",
                        "(r *Repo)",
                        vec![
                            anon("("),
                            n(
                                "parameter_declaration",
                                "r *Repo",
                                vec![f("name", n("identifier", "r", vec![])), f("type", n("pointer_type", "*Repo", vec![]))],
                            ),
                            anon(")"),
                        ],
                    ),
                ),
                f("name", n("field_identifier", "Save", vec![])),
                f("parameters", n("parameter_list", "()", vec![])),
                f("body", n("block", "{}", vec![])),
            ],
        ),
    );
    assert_eq!(Some("Repo".to_string()), find_container(&tree, &chars, 0));
    let symbol = build_symbol(&tree, &chars, &def(0, &[]), Language::Go).expect("a method makes a symbol");
    assert_eq!("func (r *Repo) Save()", symbol.signature);
    assert_eq!(Some("Repo".to_string()), symbol.container);
}

#[test]
fn a_tree_whose_child_strays_outside_its_parent_is_not_well_formed() {
    let (mut tree, chars) = impl_tree();
    assert!(tree.is_well_formed(chars.len()));
    let method = index_of(&tree, "function_item", 0);
    tree.nodes[method].end = chars.len() + 1;
    assert!(!tree.is_well_formed(chars.len() + 5));
    assert!(!tree.is_well_formed(0));
}

#[test]
fn every_changed_symbol_is_among_all_symbols() {
    let (tree, chars) = impl_tree();
    let imp = index_of(&tree, "impl_item", 0);
    let method = index_of(&tree, "function_item", 0);
    let defs = vec![def(imp, &[]), def(method, &["i32"])];
    let all = extract_all_symbols(&tree, &chars, &defs, Language::Rust);
    for ranges in [vec![LineRange { start: 1, end: 3 }], vec![LineRange { start: 2, end: 2 }], vec![]] {
        let changed = extract_changed_symbols(&tree, &chars, &defs, Language::Rust, &ranges);
        for symbol in &changed {
            assert!(all.contains(symbol));
        }
    }
}

#[test]
fn the_prefilter_keeps_a_file_defining_a_referenced_name() {
    let (tree, chars) = impl_tree();
    let method = index_of(&tree, "function_item", 0);
    let symbols = extract_all_symbols(&tree, &chars, &vec![def(method, &[])], Language::Rust);
    let matcher = rinkaku::deps::NameMatcher::for_names(vec![symbols[0].name.clone(), "Unrelated".to_string()])
        .expect("a matcher over two names");
    assert!(rinkaku::deps::should_parse_file(&matcher, IMPL));
}
