use rinkaku::extract::SymbolKind;
use rinkaku::syntax::{
    body_place, container_label, is_container_kind, receiver_type_name, symbol_kind, text_without,
    tidy_names, BodyPlace, Cut,
};

#[test]
fn symbol_kind_maps_every_grammar_definition_kind() {
    assert_eq!(Some(SymbolKind::Function), symbol_kind("function_item", None));
    assert_eq!(Some(SymbolKind::Function), symbol_kind("function_signature_item", None));
    assert_eq!(Some(SymbolKind::Struct), symbol_kind("struct_item", None));
    assert_eq!(Some(SymbolKind::Enum), symbol_kind("enum_item", None));
    assert_eq!(Some(SymbolKind::Trait), symbol_kind("trait_item", None));
    assert_eq!(Some(SymbolKind::Struct), symbol_kind("type_spec", Some("struct_type")));
    assert_eq!(Some(SymbolKind::Interface), symbol_kind("type_spec", Some("interface_type")));
    assert_eq!(None, symbol_kind("type_spec", Some("type_identifier")));
    assert_eq!(None, symbol_kind("type_spec", None));
    assert_eq!(Some(SymbolKind::Function), symbol_kind("method_declaration", None));
    assert_eq!(Some(SymbolKind::Class), symbol_kind("class_definition", None));
    assert_eq!(Some(SymbolKind::TypeAlias), symbol_kind("type_alias_declaration", None));
    assert_eq!(Some(SymbolKind::Class), symbol_kind("abstract_class_declaration", None));
    assert_eq!(Some(SymbolKind::Function), symbol_kind("abstract_method_signature", None));
    assert_eq!(Some(SymbolKind::Enum), symbol_kind("enum_declaration", None));
    assert_eq!(Some(SymbolKind::Function), symbol_kind("variable_declarator", None));
    assert_eq!(None, symbol_kind("impl_item", None));
}

#[test]
fn body_place_distinguishes_classes_functions_and_arrow_bindings() {
    assert_eq!(BodyPlace::ClassMembers, body_place("class_declaration"));
    assert_eq!(BodyPlace::ClassMembers, body_place("class_definition"));
    assert_eq!(BodyPlace::BodyField, body_place("function_item"));
    assert_eq!(BodyPlace::BodyField, body_place("method_definition"));
    assert_eq!(BodyPlace::ValueBodyField, body_place("variable_declarator"));
    assert_eq!(BodyPlace::Whole, body_place("struct_item"));
    assert_eq!(BodyPlace::Whole, body_place("interface_declaration"));
}

#[test]
fn container_kinds_are_impls_traits_and_classes() {
    assert!(is_container_kind("impl_item") && is_container_kind("trait_item"));
    assert!(is_container_kind("class_definition") && is_container_kind("abstract_class_declaration"));
    assert!(!is_container_kind("mod_item"));
}

#[test]
fn container_label_names_impl_trait_and_class_containers() {
    assert_eq!(Some("impl Foo".to_string()), container_label("impl_item", "Foo"));
    assert_eq!(Some("trait Bar".to_string()), container_label("trait_item", "Bar"));
    assert_eq!(Some("class Point".to_string()), container_label("class_declaration", "Point"));
    assert_eq!(None, container_label("mod_item", "tests"));
}

#[test]
fn receiver_type_name_drops_pointer_marks() {
    assert_eq!("Repo", receiver_type_name("*Repo"));
    assert_eq!("Repo", receiver_type_name("Repo"));
    assert_eq!("Repo", receiver_type_name("**Repo"));
    assert_eq!("", receiver_type_name("*"));
}

#[test]
fn text_without_cuts_ranges_in_start_order() {
    let source = b"fn foo(a: i32) /* c */ -> i32 { a }";
    let end = source.len();
    let body_start = 30;
    assert_eq!(b'{', source[body_start]);
    let cuts = vec![Cut { start: body_start, end }, Cut { start: 15, end: 22 }];
    let kept = text_without(source, 0, end, cuts);
    assert_eq!(b"fn foo(a: i32)  -> i32 ".to_vec(), kept);
}

#[test]
fn text_without_skips_a_cut_overlapping_an_earlier_one() {
    let source = b"abcdefghij";
    let cuts = vec![Cut { start: 2, end: 6 }, Cut { start: 4, end: 8 }];
    assert_eq!(b"abghij".to_vec(), text_without(source, 0, 10, cuts));
    assert_eq!(b"cdef".to_vec(), text_without(source, 2, 6, vec![]));
}

#[test]
fn tidy_names_sorts_dedups_and_drops_noise() {
    let names = vec![
        "helper".to_string(),
        "Point".to_string(),
        "_".to_string(),
        "x".to_string(),
        "helper".to_string(),
        "Alpha".to_string(),
    ];
    assert_eq!(
        vec!["Alpha".to_string(), "Point".to_string(), "helper".to_string()],
        tidy_names(names)
    );
}
