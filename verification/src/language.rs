//! The languages rinkaku understands: which paths route to which language,
//! what each language is called, and which paths hold nothing but tests.
use vstd::prelude::*;

use crate::text::{
    ends_with, has_prefix, has_suffix, lemma_split_slash_len, split_at_slash, split_slash,
    starts_with, str_to_chars,
};

pub mod rust;

verus! {

/// A supported language, chosen by path suffix.
#[derive(Debug, Clone, Copy, PartialEq, Eq, Structural)]
pub enum Language {
    Rust,
    Go,
    Python,
    TypeScript,
    Tsx,
    Hcl,
}

/// Whether some `/`-separated segment of `path` names Rust tests.
pub open spec fn has_rust_test_segment(path: Seq<char>) -> bool {
    exists|i: int| 0 <= i < split_slash(path).len() && is_rust_test_segment(#[trigger] split_slash(path)[i])
}

/// Whether some `/`-separated segment of `path` is exactly `name`.
pub open spec fn has_segment(path: Seq<char>, name: Seq<char>) -> bool {
    exists|i: int| 0 <= i < split_slash(path).len() && #[trigger] split_slash(path)[i] == name
}

/// The last `/`-separated segment of `path`: its file name.
pub open spec fn file_name(path: Seq<char>) -> Seq<char> {
    split_slash(path).last()
}

/// `s` without one trailing `.rs`, if it has one.
pub open spec fn rust_stem(s: Seq<char>) -> Seq<char> {
    if has_suffix(s, ".rs"@) {
        s.take(s.len() - 3)
    } else {
        s
    }
}

/// A Rust segment names tests: its stem is `tests` or ends in `_tests`.
pub open spec fn is_rust_test_segment(s: Seq<char>) -> bool {
    rust_stem(s) == "tests"@ || has_suffix(rust_stem(s), "_tests"@)
}

/// A Python file name follows pytest's `test_*.py` / `*_test.py` pattern.
pub open spec fn is_python_test_file_name(name: Seq<char>) -> bool {
    (has_prefix(name, "test_"@) && has_suffix(name, ".py"@)) || has_suffix(name, "_test.py"@)
}

/// A TypeScript file name ends in `.test.ts`, `.test.tsx`, `.spec.ts` or
/// `.spec.tsx`.
pub open spec fn is_ts_test_file_name(name: Seq<char>) -> bool {
    has_suffix(name, ".test.ts"@) || has_suffix(name, ".test.tsx"@) || has_suffix(name, ".spec.ts"@)
        || has_suffix(name, ".spec.tsx"@)
}

/// Whether `path` is, by the language's convention, a test file as a whole.
pub open spec fn spec_is_test_path(lang: Language, path: Seq<char>) -> bool {
    match lang {
        Language::Rust => has_rust_test_segment(path),
        Language::Go => has_suffix(path, "_test.go"@),
        Language::Python => has_segment(path, "tests"@) || is_python_test_file_name(file_name(path)),
        Language::TypeScript | Language::Tsx => is_ts_test_file_name(file_name(path)) || has_segment(
            path,
            "__tests__"@,
        ),
        Language::Hcl => has_suffix(path, ".tftest.hcl"@),
    }
}

/// The human-readable name a language is reported under.
pub open spec fn spec_language_name(lang: Language) -> Seq<char> {
    match lang {
        Language::Rust => "rust"@,
        Language::Go => "go"@,
        Language::Python => "python"@,
        Language::TypeScript | Language::Tsx => "typescript"@,
        Language::Hcl => "hcl"@,
    }
}

/// The language a path routes to: the first registry entry, in the order
/// `.rs`, `.go`, `.py`, `.ts`, `.tsx`, then `.tf` / `.tofu` /
/// `.tftest.hcl`, one of whose suffixes the path ends with.
pub open spec fn spec_language_for_path(path: Seq<char>) -> Option<Language> {
    if has_suffix(path, ".rs"@) {
        Some(Language::Rust)
    } else if has_suffix(path, ".go"@) {
        Some(Language::Go)
    } else if has_suffix(path, ".py"@) {
        Some(Language::Python)
    } else if has_suffix(path, ".ts"@) {
        Some(Language::TypeScript)
    } else if has_suffix(path, ".tsx"@) {
        Some(Language::Tsx)
    } else if has_suffix(path, ".tf"@) || has_suffix(path, ".tofu"@) || has_suffix(
        path,
        ".tftest.hcl"@,
    ) {
        Some(Language::Hcl)
    } else {
        None
    }
}

fn str_ends_with(s: &[char], suffix: &str) -> (r: bool)
    ensures
        r == has_suffix(s@, suffix@),
{
    let p = str_to_chars(suffix);
    ends_with(s, p.as_slice())
}

fn str_starts_with(s: &[char], prefix: &str) -> (r: bool)
    ensures
        r == has_prefix(s@, prefix@),
{
    let p = str_to_chars(prefix);
    starts_with(s, p.as_slice())
}

fn str_equals(s: &[char], t: &str) -> (r: bool)
    ensures
        r == (s@ == t@),
{
    let p = str_to_chars(t);
    crate::text::chars_eq(s, p.as_slice())
}

/// Looks up the language registered for a path by its suffix; `None` for
/// paths rinkaku does not understand (callers skip them).
pub fn language_for_path(path: &str) -> (r: Option<Language>)
    ensures
        r == spec_language_for_path(path@),
{
    let s = str_to_chars(path);
    if str_ends_with(s.as_slice(), ".rs") {
        Some(Language::Rust)
    } else if str_ends_with(s.as_slice(), ".go") {
        Some(Language::Go)
    } else if str_ends_with(s.as_slice(), ".py") {
        Some(Language::Python)
    } else if str_ends_with(s.as_slice(), ".ts") {
        Some(Language::TypeScript)
    } else if str_ends_with(s.as_slice(), ".tsx") {
        Some(Language::Tsx)
    } else if str_ends_with(s.as_slice(), ".tf") || str_ends_with(s.as_slice(), ".tofu")
        || str_ends_with(s.as_slice(), ".tftest.hcl") {
        Some(Language::Hcl)
    } else {
        None
    }
}

fn rust_test_segment(seg: &Vec<char>) -> (r: bool)
    ensures
        r == is_rust_test_segment(seg@),
{
    let mut stem: Vec<char> = Vec::new();
    let n = seg.len();
    proof {
        reveal_strlit(".rs");
    }
    let cut = if str_ends_with(seg.as_slice(), ".rs") {
        n - 3
    } else {
        n
    };
    let mut i: usize = 0;
    while i < cut
        invariant
            cut <= n == seg@.len(),
            i <= cut,
            stem@ == seg@.take(i as int),
        decreases cut - i,
    {
        stem.push(seg[i]);
        i += 1;
        assert(stem@ =~= seg@.take(i as int));
    }
    assert(stem@ == rust_stem(seg@)) by {
        if !has_suffix(seg@, ".rs"@) {
            assert(seg@.take(n as int) =~= seg@);
        }
    }
    str_equals(stem.as_slice(), "tests") || str_ends_with(stem.as_slice(), "_tests")
}

/// Whether some segment of `parts` is exactly `name`.
fn some_segment_is(parts: &Vec<Vec<char>>, name: &str) -> (r: bool)
    ensures
        r == exists|i: int| 0 <= i < parts@.len() && #[trigger] parts@[i]@ == name@,
{
    let mut i: usize = 0;
    while i < parts.len()
        invariant
            i <= parts@.len(),
            forall|j: int| 0 <= j < i ==> #[trigger] parts@[j]@ != name@,
        decreases parts.len() - i,
    {
        if str_equals(parts[i].as_slice(), name) {
            return true;
        }
        i += 1;
    }
    false
}

/// Whether `path` is, by `lang`'s convention, a test file as a whole: Rust
/// `tests`/`*_tests` segments or file stems, Go `*_test.go`, Python
/// `test_*.py`/`*_test.py` or a `tests/` directory, TypeScript
/// `.test.ts(x)`/`.spec.ts(x)` or a `__tests__/` directory, Terraform
/// `*.tftest.hcl`.
pub fn is_test_path(lang: Language, path: &str) -> (r: bool)
    ensures
        r == spec_is_test_path(lang, path@),
{
    let s = str_to_chars(path);
    let parts = split_at_slash(s.as_slice());
    let ghost pv = parts@.map_values(|p: Vec<char>| p@);
    proof {
        lemma_split_slash_len(s@);
        assert forall|i: int| 0 <= i < parts@.len() implies #[trigger] parts@[i]@ == split_slash(
            path@,
        )[i] by {
            assert(pv[i] == parts@[i]@);
        }
    }
    match lang {
        Language::Rust => {
            let mut i: usize = 0;
            while i < parts.len()
                invariant
                    lang == Language::Rust,
                    i <= parts@.len(),
                    parts@.len() == split_slash(path@).len(),
                    forall|j: int|
                        0 <= j < parts@.len() ==> #[trigger] parts@[j]@ == split_slash(path@)[j],
                    forall|j: int|
                        0 <= j < i ==> !is_rust_test_segment(#[trigger] split_slash(path@)[j]),
                decreases parts.len() - i,
            {
                if rust_test_segment(&parts[i]) {
                    assert(is_rust_test_segment(split_slash(path@)[i as int]));
                    return true;
                }
                i += 1;
            }
            false
        },
        Language::Go => str_ends_with(s.as_slice(), "_test.go"),
        Language::Python => {
            let last = &parts[parts.len() - 1];
            let by_name = (str_starts_with(last.as_slice(), "test_") && str_ends_with(
                last.as_slice(),
                ".py",
            )) || str_ends_with(last.as_slice(), "_test.py");
            let in_tests = some_segment_is(&parts, "tests");
            in_tests || by_name
        },
        Language::TypeScript | Language::Tsx => {
            let last = &parts[parts.len() - 1];
            let by_name = str_ends_with(last.as_slice(), ".test.ts") || str_ends_with(
                last.as_slice(),
                ".test.tsx",
            ) || str_ends_with(last.as_slice(), ".spec.ts") || str_ends_with(
                last.as_slice(),
                ".spec.tsx",
            );
            let in_tests = some_segment_is(&parts, "__tests__");
            by_name || in_tests
        },
        Language::Hcl => str_ends_with(s.as_slice(), ".tftest.hcl"),
    }
}

/// The tree-sitter query capturing Rust definitions: functions, trait
/// method signatures, structs, enums, traits, and impl blocks (captured so
/// that their methods find their container).
pub const RUST_DEFINITION_QUERY: &'static str = "\
[
  (function_item) @definition.function
  (function_signature_item) @definition.function
  (struct_item) @definition.struct
  (enum_item) @definition.enum
  (trait_item) @definition.trait
  (impl_item) @definition.impl
] @definition";

/// The tree-sitter query capturing the names a Rust definition
/// references: called functions, named types, the type of a scoped path,
/// and a trait's own method names.
pub const RUST_REFERENCE_QUERY: &'static str = "\
[
  (call_expression function: (identifier) @reference.call)
  (type_identifier) @reference.type
  (scoped_identifier path: (identifier) @reference.type)
  (trait_item body: (declaration_list (function_signature_item name: (identifier) @reference.call)))
  (trait_item body: (declaration_list (function_item name: (identifier) @reference.call)))
]";

/// The tree-sitter query capturing Go definitions: functions, receiver
/// methods, struct types and interface types (a plain type alias is
/// neither).
pub const GO_DEFINITION_QUERY: &'static str = "\
[
  (function_declaration) @definition.function
  (method_declaration) @definition.method
  (type_spec type: (struct_type)) @definition.struct
  (type_spec type: (interface_type)) @definition.interface
] @definition";

/// The tree-sitter query capturing the names a Go definition references:
/// called functions, named types (builtin ones included), and an
/// interface's method names.
pub const GO_REFERENCE_QUERY: &'static str = "\
[
  (call_expression function: (identifier) @reference.call)
  (type_identifier) @reference.type
  (method_elem name: (field_identifier) @reference.call)
]";

/// The tree-sitter query capturing Python definitions: functions and
/// classes.
pub const PYTHON_DEFINITION_QUERY: &'static str = "\
[
  (function_definition) @definition.function
  (class_definition) @definition.class
] @definition";

/// The tree-sitter query capturing the names a Python definition
/// references: called functions and classes, and type annotations.
pub const PYTHON_REFERENCE_QUERY: &'static str = "\
[
  (call function: (identifier) @reference.call)
  (type (identifier) @reference.type)
]";

/// The tree-sitter query capturing TypeScript (and TSX) definitions.
pub const TYPESCRIPT_DEFINITION_QUERY: &'static str = "\
[
  (function_declaration) @definition.function
  (method_definition) @definition.function
  (abstract_method_signature) @definition.function
  (variable_declarator value: (arrow_function)) @definition.function
  (class_declaration) @definition.class
  (abstract_class_declaration) @definition.class
  (interface_declaration) @definition.interface
  (type_alias_declaration) @definition.type_alias
  (enum_declaration) @definition.enum
] @definition";

/// The tree-sitter query capturing the names a TypeScript definition
/// references: called functions, constructed classes, named types, and an
/// interface's method names (not its property names).
pub const TYPESCRIPT_REFERENCE_QUERY: &'static str = "\
[
  (call_expression function: (identifier) @reference.call)
  (new_expression constructor: (identifier) @reference.call)
  (type_identifier) @reference.type
  (interface_body (method_signature name: (property_identifier) @reference.call))
]";

/// The tree-sitter query capturing the top-level blocks of an HCL file.
pub const HCL_DEFINITION_QUERY: &'static str = "(config_file (body (block) @definition))";

/// The tree-sitter query capturing the functions an HCL block calls.
pub const HCL_REFERENCE_QUERY: &'static str = "(function_call (identifier) @reference.call)";

/// The definition query of a language.
pub open spec fn spec_definition_query(lang: Language) -> &'static str {
    match lang {
        Language::Rust => RUST_DEFINITION_QUERY,
        Language::Go => GO_DEFINITION_QUERY,
        Language::Python => PYTHON_DEFINITION_QUERY,
        Language::TypeScript | Language::Tsx => TYPESCRIPT_DEFINITION_QUERY,
        Language::Hcl => HCL_DEFINITION_QUERY,
    }
}

/// The reference query of a language.
pub open spec fn spec_reference_query(lang: Language) -> &'static str {
    match lang {
        Language::Rust => RUST_REFERENCE_QUERY,
        Language::Go => GO_REFERENCE_QUERY,
        Language::Python => PYTHON_REFERENCE_QUERY,
        Language::TypeScript | Language::Tsx => TYPESCRIPT_REFERENCE_QUERY,
        Language::Hcl => HCL_REFERENCE_QUERY,
    }
}

impl Language {
    /// The human-readable name this language is reported under.
    pub fn name(&self) -> (r: &'static str)
        ensures
            r@ == spec_language_name(*self),
    {
        match self {
            Language::Rust => "rust",
            Language::Go => "go",
            Language::Python => "python",
            Language::TypeScript | Language::Tsx => "typescript",
            Language::Hcl => "hcl",
        }
    }

    /// Whether `path` is a test file as a whole; see [`is_test_path`].
    pub fn is_test_path(&self, path: &str) -> (r: bool)
        ensures
            r == spec_is_test_path(*self, path@),
    {
        is_test_path(*self, path)
    }

    /// The tree-sitter query capturing this language's definitions, each
    /// as `@definition`.
    pub fn definition_query(&self) -> (r: &'static str)
        ensures
            r == spec_definition_query(*self),
    {
        match self {
            Language::Rust => RUST_DEFINITION_QUERY,
            Language::Go => GO_DEFINITION_QUERY,
            Language::Python => PYTHON_DEFINITION_QUERY,
            Language::TypeScript | Language::Tsx => TYPESCRIPT_DEFINITION_QUERY,
            Language::Hcl => HCL_DEFINITION_QUERY,
        }
    }

    /// The tree-sitter query capturing the names this language's
    /// definitions reference, under capture names starting with
    /// `reference.`.
    pub fn reference_query(&self) -> (r: &'static str)
        ensures
            r == spec_reference_query(*self),
    {
        match self {
            Language::Rust => RUST_REFERENCE_QUERY,
            Language::Go => GO_REFERENCE_QUERY,
            Language::Python => PYTHON_REFERENCE_QUERY,
            Language::TypeScript | Language::Tsx => TYPESCRIPT_REFERENCE_QUERY,
            Language::Hcl => HCL_REFERENCE_QUERY,
        }
    }
}

/// Rust support (`.rs`).
pub struct RustSupport;

/// Go support (`.go`).
pub struct GoSupport;

/// Python support (`.py`).
pub struct PythonSupport;

/// TypeScript support (`.ts`).
pub struct TypeScriptSupport;

/// TSX support (`.tsx`): TypeScript with JSX, reported as `typescript`.
pub struct TsxSupport;

/// Terraform / OpenTofu support (`.tf`, `.tofu`, `.tftest.hcl`).
pub struct HclSupport;

impl RustSupport {
    pub fn language(&self) -> (r: Language)
        ensures
            r == Language::Rust,
    {
        Language::Rust
    }

    pub fn name(&self) -> (r: &'static str)
        ensures
            r@ == spec_language_name(Language::Rust),
    {
        Language::Rust.name()
    }

    pub fn is_test_path(&self, path: &str) -> (r: bool)
        ensures
            r == spec_is_test_path(Language::Rust, path@),
    {
        is_test_path(Language::Rust, path)
    }

    pub fn definition_query(&self) -> (r: &'static str)
        ensures
            r == spec_definition_query(Language::Rust),
    {
        Language::Rust.definition_query()
    }

    pub fn reference_query(&self) -> (r: &'static str)
        ensures
            r == spec_reference_query(Language::Rust),
    {
        Language::Rust.reference_query()
    }
}

impl GoSupport {
    pub fn language(&self) -> (r: Language)
        ensures
            r == Language::Go,
    {
        Language::Go
    }

    pub fn name(&self) -> (r: &'static str)
        ensures
            r@ == spec_language_name(Language::Go),
    {
        Language::Go.name()
    }

    pub fn is_test_path(&self, path: &str) -> (r: bool)
        ensures
            r == spec_is_test_path(Language::Go, path@),
    {
        is_test_path(Language::Go, path)
    }

    pub fn definition_query(&self) -> (r: &'static str)
        ensures
            r == spec_definition_query(Language::Go),
    {
        Language::Go.definition_query()
    }

    pub fn reference_query(&self) -> (r: &'static str)
        ensures
            r == spec_reference_query(Language::Go),
    {
        Language::Go.reference_query()
    }
}

impl PythonSupport {
    pub fn language(&self) -> (r: Language)
        ensures
            r == Language::Python,
    {
        Language::Python
    }

    pub fn name(&self) -> (r: &'static str)
        ensures
            r@ == spec_language_name(Language::Python),
    {
        Language::Python.name()
    }

    pub fn is_test_path(&self, path: &str) -> (r: bool)
        ensures
            r == spec_is_test_path(Language::Python, path@),
    {
        is_test_path(Language::Python, path)
    }

    pub fn definition_query(&self) -> (r: &'static str)
        ensures
            r == spec_definition_query(Language::Python),
    {
        Language::Python.definition_query()
    }

    pub fn reference_query(&self) -> (r: &'static str)
        ensures
            r == spec_reference_query(Language::Python),
    {
        Language::Python.reference_query()
    }
}

impl TypeScriptSupport {
    pub fn language(&self) -> (r: Language)
        ensures
            r == Language::TypeScript,
    {
        Language::TypeScript
    }

    pub fn name(&self) -> (r: &'static str)
        ensures
            r@ == spec_language_name(Language::TypeScript),
    {
        Language::TypeScript.name()
    }

    pub fn is_test_path(&self, path: &str) -> (r: bool)
        ensures
            r == spec_is_test_path(Language::TypeScript, path@),
    {
        is_test_path(Language::TypeScript, path)
    }

    pub fn definition_query(&self) -> (r: &'static str)
        ensures
            r == spec_definition_query(Language::TypeScript),
    {
        Language::TypeScript.definition_query()
    }

    pub fn reference_query(&self) -> (r: &'static str)
        ensures
            r == spec_reference_query(Language::TypeScript),
    {
        Language::TypeScript.reference_query()
    }
}

impl TsxSupport {
    pub fn language(&self) -> (r: Language)
        ensures
            r == Language::Tsx,
    {
        Language::Tsx
    }

    pub fn name(&self) -> (r: &'static str)
        ensures
            r@ == spec_language_name(Language::Tsx),
    {
        Language::Tsx.name()
    }

    pub fn is_test_path(&self, path: &str) -> (r: bool)
        ensures
            r == spec_is_test_path(Language::Tsx, path@),
    {
        is_test_path(Language::Tsx, path)
    }

    pub fn definition_query(&self) -> (r: &'static str)
        ensures
            r == spec_definition_query(Language::Tsx),
    {
        Language::Tsx.definition_query()
    }

    pub fn reference_query(&self) -> (r: &'static str)
        ensures
            r == spec_reference_query(Language::Tsx),
    {
        Language::Tsx.reference_query()
    }
}

impl HclSupport {
    pub fn language(&self) -> (r: Language)
        ensures
            r == Language::Hcl,
    {
        Language::Hcl
    }

    pub fn name(&self) -> (r: &'static str)
        ensures
            r@ == spec_language_name(Language::Hcl),
    {
        Language::Hcl.name()
    }

    pub fn is_test_path(&self, path: &str) -> (r: bool)
        ensures
            r == spec_is_test_path(Language::Hcl, path@),
    {
        is_test_path(Language::Hcl, path)
    }

    pub fn definition_query(&self) -> (r: &'static str)
        ensures
            r == spec_definition_query(Language::Hcl),
    {
        Language::Hcl.definition_query()
    }

    pub fn reference_query(&self) -> (r: &'static str)
        ensures
            r == spec_reference_query(Language::Hcl),
    {
        Language::Hcl.reference_query()
    }
}

} // verus!
