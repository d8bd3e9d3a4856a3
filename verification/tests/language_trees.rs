//! The languages' tree-sitter side: each grammar parses, each query
//! compiles against its grammar, and which Rust definitions are tests, as
//! decided on converted parses.

use std::collections::HashMap;

use rinkaku::language::{
    GoSupport, HclSupport, Language, PythonSupport, RustSupport, TsxSupport, TypeScriptSupport,
};
use rinkaku::tree::{SyntaxNode, SyntaxTree};
use tree_sitter::StreamingIterator;

/// The grammar a language support parses with.
trait Grammar {
    fn grammar(&self) -> tree_sitter::Language;
}

fn grammar_of(lang: Language) -> tree_sitter::Language {
    match lang {
        Language::Rust => tree_sitter_rust::LANGUAGE.into(),
        Language::Go => tree_sitter_go::LANGUAGE.into(),
        Language::Python => tree_sitter_python::LANGUAGE.into(),
        Language::TypeScript => tree_sitter_typescript::LANGUAGE_TYPESCRIPT.into(),
        Language::Tsx => tree_sitter_typescript::LANGUAGE_TSX.into(),
        Language::Hcl => tree_sitter_hcl::LANGUAGE.into(),
    }
}

impl Grammar for RustSupport {
    fn grammar(&self) -> tree_sitter::Language {
        grammar_of(self.language())
    }
}

impl Grammar for GoSupport {
    fn grammar(&self) -> tree_sitter::Language {
        grammar_of(self.language())
    }
}

impl Grammar for PythonSupport {
    fn grammar(&self) -> tree_sitter::Language {
        grammar_of(self.language())
    }
}

impl Grammar for TypeScriptSupport {
    fn grammar(&self) -> tree_sitter::Language {
        grammar_of(self.language())
    }
}

impl Grammar for TsxSupport {
    fn grammar(&self) -> tree_sitter::Language {
        grammar_of(self.language())
    }
}

impl Grammar for HclSupport {
    fn grammar(&self) -> tree_sitter::Language {
        grammar_of(self.language())
    }
}

fn add_subtree(
    cursor: &mut tree_sitter::TreeCursor,
    parent: Option<usize>,
    char_at: &[usize],
    nodes: &mut Vec<SyntaxNode>,
    index_of: &mut HashMap<usize, usize>,
) -> usize {
    let node = cursor.node();
    let index = nodes.len();
    nodes.push(SyntaxNode {
        kind: node.kind().to_string(),
        field: cursor.field_name().map(str::to_string),
        named: node.is_named(),
        start: char_at[node.start_byte()],
        end: char_at[node.end_byte()],
        start_row: node.start_position().row,
        end_row: node.end_position().row,
        parent,
        children: Vec::new(),
    });
    index_of.insert(node.id(), index);
    if cursor.goto_first_child() {
        loop {
            let child = add_subtree(cursor, Some(index), char_at, nodes, index_of);
            nodes[index].children.push(child);
            if !cursor.goto_next_sibling() {
                break;
            }
        }
        cursor.goto_parent();
    }
    index
}

/// Deciding on a parsed node whether it is a test definition.
trait TestDefinition {
    fn is_test_definition(&self, node: tree_sitter::Node, source: &[u8]) -> bool;
}

impl TestDefinition for RustSupport {
    /// Converts the whole tree `node` belongs to and asks
    /// `rinkaku::language::rust::is_test_definition` about `node`.
    fn is_test_definition(&self, node: tree_sitter::Node, source: &[u8]) -> bool {
        let text = std::str::from_utf8(source).unwrap();
        let mut root = node;
        while let Some(parent) = root.parent() {
            root = parent;
        }
        let chars: Vec<char> = text.chars().collect();
        let mut char_at = vec![chars.len(); text.len() + 1];
        for (count, (byte, _)) in text.char_indices().enumerate() {
            char_at[byte] = count;
        }
        let mut nodes = Vec::new();
        let mut index_of = HashMap::new();
        let mut cursor = root.walk();
        add_subtree(&mut cursor, None, &char_at, &mut nodes, &mut index_of);
        let tree = SyntaxTree { nodes };
        assert!(tree.is_well_formed(chars.len()));
        rinkaku::language::rust::is_test_definition(&tree, &chars, index_of[&node.id()])
    }
}

/// Parses `source` and returns the first node captured by the Rust
/// definition query whose own text contains `needle`.
fn find_definition_node<'a>(
    tree: &'a tree_sitter::Tree,
    source: &'a str,
    needle: &str,
) -> tree_sitter::Node<'a> {
    let support = RustSupport;
    let query = tree_sitter::Query::new(&support.grammar(), support.definition_query())
        .expect("DEFINITION_QUERY must be valid against the Rust grammar");
    let definition_capture_index = query
        .capture_index_for_name("definition")
        .expect("definition query must have a @definition capture");
    let mut cursor = tree_sitter::QueryCursor::new();
    let mut matches = cursor.matches(&query, tree.root_node(), source.as_bytes());
    while let Some(m) = matches.next() {
        for capture in m.captures {
            if capture.index == definition_capture_index
                && capture
                    .node
                    .utf8_text(source.as_bytes())
                    .is_ok_and(|text| text.contains(needle))
            {
                return capture.node;
            }
        }
    }
    panic!("no definition node containing {needle:?} found in parsed source");
}

#[test]
fn cfg_test_attribute_spellings() {
    let cases = [
        ("#[cfg(test)]", true),
        ("#[cfg( test )]", true),
        ("#[cfg(test,)]", true),
        ("#[cfg(all(test, feature = \"x\"))]", true),
        ("#[cfg(any(test, doc))]", true),
        ("#[cfg(not(test))]", false),
        ("#[cfg(feature = \"test\")]", false),
    ];
    for (attribute_source, expected) in cases {
        let source = format!("{attribute_source}\nmod tests {{\n    fn helper() {{}}\n}}\n");
        let support = RustSupport;
        let mut parser = tree_sitter::Parser::new();
        parser.set_language(&support.grammar()).unwrap();
        let tree = parser.parse(&source, None).unwrap();
        let node = find_definition_node(&tree, &source, "fn helper");

        let actual = support.is_test_definition(node, source.as_bytes());

        assert_eq!(expected, actual, "{attribute_source}");
    }
}


#[test]
fn rust_should_produce_a_grammar_that_parses_without_errors() {
    let support = RustSupport;
    let mut parser = tree_sitter::Parser::new();
    parser
        .set_language(&support.grammar())
        .expect("rust grammar should load into a tree-sitter parser");

    let tree = parser
        .parse("fn main() {}", None)
        .expect("parse should produce a tree");

    assert!(!tree.root_node().has_error());
}

#[test]
fn rust_should_compile_definition_query_against_its_own_grammar() {
    let support = RustSupport;

    tree_sitter::Query::new(&support.grammar(), support.definition_query())
        .expect("DEFINITION_QUERY must be valid against the Rust grammar");
}

#[test]
fn rust_should_compile_reference_query_against_its_own_grammar() {
    let support = RustSupport;

    tree_sitter::Query::new(&support.grammar(), support.reference_query())
        .expect("REFERENCE_QUERY must be valid against the Rust grammar");
}

#[test]
fn should_return_true_when_function_is_nested_inside_cfg_test_mod() {
    let source = "\
#[cfg(test)]
mod tests {
fn helper() {}
}
";
    let support = RustSupport;
    let mut parser = tree_sitter::Parser::new();
    parser.set_language(&support.grammar()).unwrap();
    let tree = parser.parse(source, None).unwrap();
    let node = find_definition_node(&tree, source, "fn helper");

    let actual = support.is_test_definition(node, source.as_bytes());

    assert!(actual);
}

#[test]
fn should_return_true_when_function_has_test_attribute() {
    let source = "\
#[test]
fn should_add_two_numbers() {}
";
    let support = RustSupport;
    let mut parser = tree_sitter::Parser::new();
    parser.set_language(&support.grammar()).unwrap();
    let tree = parser.parse(source, None).unwrap();
    let node = find_definition_node(&tree, source, "fn should_add_two_numbers");

    let actual = support.is_test_definition(node, source.as_bytes());

    assert!(actual);
}

#[test]
fn should_return_true_when_function_has_rstest_attribute() {
    let source = "\
#[rstest]
fn should_do_something(#[case] input: i32) {}
";
    let support = RustSupport;
    let mut parser = tree_sitter::Parser::new();
    parser.set_language(&support.grammar()).unwrap();
    let tree = parser.parse(source, None).unwrap();
    let node = find_definition_node(&tree, source, "fn should_do_something");

    let actual = support.is_test_definition(node, source.as_bytes());

    assert!(actual);
}

#[test]
fn should_return_true_when_function_has_tokio_test_attribute() {
    let source = "\
#[tokio::test]
async fn should_fetch_data() {}
";
    let support = RustSupport;
    let mut parser = tree_sitter::Parser::new();
    parser.set_language(&support.grammar()).unwrap();
    let tree = parser.parse(source, None).unwrap();
    let node = find_definition_node(&tree, source, "fn should_fetch_data");

    let actual = support.is_test_definition(node, source.as_bytes());

    assert!(actual);
}

#[test]
fn should_return_false_when_function_has_no_test_marker() {
    let source = "\
fn helper() -> i32 {
42
}
";
    let support = RustSupport;
    let mut parser = tree_sitter::Parser::new();
    parser.set_language(&support.grammar()).unwrap();
    let tree = parser.parse(source, None).unwrap();
    let node = find_definition_node(&tree, source, "fn helper");

    let actual = support.is_test_definition(node, source.as_bytes());

    assert!(!actual);
}

#[test]
fn should_return_false_when_mod_has_unrelated_cfg_attribute() {
    let source = "\
#[cfg(feature = \"extra\")]
mod extra {
fn helper() {}
}
";
    let support = RustSupport;
    let mut parser = tree_sitter::Parser::new();
    parser.set_language(&support.grammar()).unwrap();
    let tree = parser.parse(source, None).unwrap();
    let node = find_definition_node(&tree, source, "fn helper");

    let actual = support.is_test_definition(node, source.as_bytes());

    assert!(!actual);
}

#[test]
fn should_return_true_when_function_is_deeply_nested_inside_cfg_test_mod() {
    // A helper function nested inside an inner `mod` that is itself
    // inside `#[cfg(test)] mod tests` is still test code — the walk
    // must not stop at the immediate parent.
    let source = "\
#[cfg(test)]
mod tests {
mod nested {
    fn helper() {}
}
}
";
    let support = RustSupport;
    let mut parser = tree_sitter::Parser::new();
    parser.set_language(&support.grammar()).unwrap();
    let tree = parser.parse(source, None).unwrap();
    let node = find_definition_node(&tree, source, "fn helper");

    let actual = support.is_test_definition(node, source.as_bytes());

    assert!(actual);
}

#[test]
fn should_return_true_when_function_is_inside_mod_with_inner_cfg_test_attribute() {
    // `#![cfg(test)]` (inner attribute) applies to the enclosing `mod`
    // itself, same as an outer `#[cfg(test)]` placed before it — but
    // tree-sitter attaches it as the *first child of the mod's own
    // `declaration_list`*, not as a preceding sibling of the `mod_item`
    // the way an outer attribute is. A detector that only checks
    // preceding siblings misses this form entirely.
    let source = "\
mod tests {
#![cfg(test)]

fn helper() {}
}
";
    let support = RustSupport;
    let mut parser = tree_sitter::Parser::new();
    parser.set_language(&support.grammar()).unwrap();
    let tree = parser.parse(source, None).unwrap();
    let node = find_definition_node(&tree, source, "fn helper");

    let actual = support.is_test_definition(node, source.as_bytes());

    assert!(actual);
}

#[test]
fn should_return_true_when_doc_comment_sits_between_cfg_test_attribute_and_mod() {
    // `attribute_item` and `mod_item` are not adjacent siblings when a
    // doc comment (`line_comment` node) is written between them; the
    // ancestor/sibling walk must skip over such comments rather than
    // stopping the search the moment a non-`attribute_item` sibling is
    // seen.
    let source = "\
#[cfg(test)]
/// Doc comment on the test module.
mod tests {
fn helper() {}
}
";
    let support = RustSupport;
    let mut parser = tree_sitter::Parser::new();
    parser.set_language(&support.grammar()).unwrap();
    let tree = parser.parse(source, None).unwrap();
    let node = find_definition_node(&tree, source, "fn helper");

    let actual = support.is_test_definition(node, source.as_bytes());

    assert!(actual);
}

#[test]
fn should_return_true_when_doc_comment_sits_between_test_attribute_and_function() {
    // Same doc-comment-skipping requirement as the mod case above, but
    // for a directly `#[test]`-attributed function.
    let source = "\
#[test]
/// Doc comment on the test function.
fn should_add_two_numbers() {
assert_eq!(2, 1 + 1);
}
";
    let support = RustSupport;
    let mut parser = tree_sitter::Parser::new();
    parser.set_language(&support.grammar()).unwrap();
    let tree = parser.parse(source, None).unwrap();
    let node = find_definition_node(&tree, source, "fn should_add_two_numbers");

    let actual = support.is_test_definition(node, source.as_bytes());

    assert!(actual);
}

#[test]
fn go_should_produce_a_grammar_that_parses_without_errors() {
    let support = GoSupport;
    let mut parser = tree_sitter::Parser::new();
    parser
        .set_language(&support.grammar())
        .expect("go grammar should load into a tree-sitter parser");

    let tree = parser
        .parse("package main\n\nfunc main() {}\n", None)
        .expect("parse should produce a tree");

    assert!(!tree.root_node().has_error());
}

#[test]
fn go_should_compile_definition_query_against_its_own_grammar() {
    let support = GoSupport;

    tree_sitter::Query::new(&support.grammar(), support.definition_query())
        .expect("DEFINITION_QUERY must be valid against the Go grammar");
}

#[test]
fn python_should_produce_a_grammar_that_parses_without_errors() {
    let support = PythonSupport;
    let mut parser = tree_sitter::Parser::new();
    parser
        .set_language(&support.grammar())
        .expect("python grammar should load into a tree-sitter parser");

    let tree = parser
        .parse("def main():\n    pass\n", None)
        .expect("parse should produce a tree");

    assert!(!tree.root_node().has_error());
}

#[test]
fn python_should_compile_definition_query_against_its_own_grammar() {
    let support = PythonSupport;

    tree_sitter::Query::new(&support.grammar(), support.definition_query())
        .expect("DEFINITION_QUERY must be valid against the Python grammar");
}

#[test]
fn python_should_compile_reference_query_against_its_own_grammar() {
    let support = PythonSupport;

    tree_sitter::Query::new(&support.grammar(), support.reference_query())
        .expect("REFERENCE_QUERY must be valid against the Python grammar");
}

#[test]
fn typescript_should_produce_a_grammar_that_parses_without_errors() {
    let support = TypeScriptSupport;
    let mut parser = tree_sitter::Parser::new();
    parser
        .set_language(&support.grammar())
        .expect("typescript grammar should load into a tree-sitter parser");

    let tree = parser
        .parse("function main(): void {}\n", None)
        .expect("parse should produce a tree");

    assert!(!tree.root_node().has_error());
}

#[test]
fn should_produce_a_tsx_grammar_that_parses_jsx_without_errors() {
    let support = TsxSupport;
    let mut parser = tree_sitter::Parser::new();
    parser
        .set_language(&support.grammar())
        .expect("tsx grammar should load into a tree-sitter parser");

    let tree = parser
        .parse("const Component = () => <div>Hi</div>;\n", None)
        .expect("parse should produce a tree");

    assert!(!tree.root_node().has_error());
}

#[test]
fn should_compile_definition_query_against_the_typescript_grammar() {
    let support = TypeScriptSupport;

    tree_sitter::Query::new(&support.grammar(), support.definition_query())
        .expect("DEFINITION_QUERY must be valid against the TypeScript grammar");
}

#[test]
fn should_compile_definition_query_against_the_tsx_grammar() {
    let support = TsxSupport;

    tree_sitter::Query::new(&support.grammar(), support.definition_query())
        .expect("DEFINITION_QUERY must be valid against the TSX grammar");
}

#[test]
fn should_compile_reference_query_against_the_typescript_grammar() {
    let support = TypeScriptSupport;

    tree_sitter::Query::new(&support.grammar(), support.reference_query())
        .expect("REFERENCE_QUERY must be valid against the TypeScript grammar");
}

#[test]
fn should_compile_reference_query_against_the_tsx_grammar() {
    let support = TsxSupport;

    tree_sitter::Query::new(&support.grammar(), support.reference_query())
        .expect("REFERENCE_QUERY must be valid against the TSX grammar");
}

#[test]
fn hcl_should_produce_a_grammar_that_parses_without_errors() {
    let support = HclSupport;
    let mut parser = tree_sitter::Parser::new();
    parser
        .set_language(&support.grammar())
        .expect("HCL grammar should load into a tree-sitter parser");

    let tree = parser
        .parse(
            "resource \"aws_instance\" \"web\" {\n  ami = \"abc\"\n}\n",
            None,
        )
        .expect("parse should produce a tree");

    assert!(!tree.root_node().has_error());
}

#[test]
fn hcl_should_compile_definition_query_against_its_own_grammar() {
    let support = HclSupport;

    tree_sitter::Query::new(&support.grammar(), support.definition_query())
        .expect("DEFINITION_QUERY must be valid against the HCL grammar");
}

#[test]
fn hcl_should_compile_reference_query_against_its_own_grammar() {
    let support = HclSupport;

    tree_sitter::Query::new(&support.grammar(), support.reference_query())
        .expect("REFERENCE_QUERY must be valid against the HCL grammar");
}
