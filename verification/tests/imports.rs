use buffa_codegen::imports::{shortenable, ImportResolver, RootImports};
use buffa_codegen::name_set::NameSet;

fn name_set(items: &[&str]) -> NameSet {
    let mut s = NameSet::new();
    for i in items {
        s.insert(i.to_string());
    }
    s
}

fn assign(paths: &[&str], occupied: &[&str]) -> RootImports {
    RootImports::assign(&name_set(paths), &name_set(occupied))
}

#[test]
fn cross_package_binds_bare_leaf() {
    let imports = assign(&["super::other::Msg"], &[]);
    assert_eq!(imports.resolve("super::other::Msg"), Some("Msg"));
    assert_eq!(imports.use_targets(), vec!["super::other::Msg".to_string()]);
}

#[test]
fn extern_path_binds_bare_leaf() {
    let imports = assign(&["::buffa_types::google::protobuf::Timestamp"], &[]);
    assert_eq!(
        imports.resolve("::buffa_types::google::protobuf::Timestamp"),
        Some("Timestamp")
    );
}

#[test]
fn same_package_relative_paths_pass_through() {
    let imports = assign(&["outer::Inner", "Msg"], &[]);
    assert_eq!(imports.resolve("outer::Inner"), None);
    assert_eq!(imports.resolve("Msg"), None);
    assert!(imports.use_targets().is_empty());
}

#[test]
fn occupied_leaf_falls_to_parent_module() {
    let imports = assign(&["super::other::Msg"], &["Msg"]);
    assert_eq!(imports.resolve("super::other::Msg"), Some("other::Msg"));
    assert_eq!(imports.use_targets(), vec!["super::other".to_string()]);
}

#[test]
fn occupied_leaf_and_parent_stays_qualified() {
    let imports = assign(&["super::other::Msg"], &["Msg", "other"]);
    assert_eq!(imports.resolve("super::other::Msg"), None);
    assert!(imports.use_targets().is_empty());
}

#[test]
fn duplicate_leaf_assignment_is_order_independent() {
    let forward = assign(&["::a::Dup", "::b::Dup"], &[]);
    let reverse = assign(&["::b::Dup", "::a::Dup"], &[]);
    for imports in [forward, reverse] {
        assert_eq!(imports.resolve("::a::Dup"), Some("Dup"));
        assert_eq!(imports.resolve("::b::Dup"), Some("b::Dup"));
    }
}

#[test]
fn runtime_types_claim_before_proto_types() {
    let imports = assign(
        &["::buffa::alloc::string::String", "super::other::String"],
        &[],
    );
    assert_eq!(
        imports.resolve("::buffa::alloc::string::String"),
        Some("String")
    );
    assert_eq!(
        imports.resolve("super::other::String"),
        Some("other::String")
    );
}

#[test]
fn proto_type_never_takes_runtime_leaf_even_when_unused() {
    let imports = assign(&["super::other::String"], &[]);
    assert_eq!(
        imports.resolve("super::other::String"),
        Some("other::String")
    );
}

#[test]
fn runtime_type_blocked_by_package_item() {
    let imports = assign(&["::buffa::alloc::string::String"], &["String"]);
    assert_eq!(imports.resolve("::buffa::alloc::string::String"), None);
}

#[test]
fn bare_referenced_names_never_claimed() {
    let imports = assign(&["super::other::From"], &[]);
    assert_eq!(imports.resolve("super::other::From"), Some("other::From"));
    let imports = assign(&["super::serde::Inner"], &["Inner"]);
    assert_eq!(imports.resolve("super::serde::Inner"), None);
}

#[test]
fn shared_parent_module_binds_once() {
    let imports = assign(&["super::pkg::A", "super::pkg::B"], &["A", "B"]);
    assert_eq!(imports.resolve("super::pkg::A"), Some("pkg::A"));
    assert_eq!(imports.resolve("super::pkg::B"), Some("pkg::B"));
    assert_eq!(imports.use_targets(), vec!["super::pkg".to_string()]);
}

#[test]
fn keyword_segments_survive_in_use_targets() {
    let imports = assign(&["super::type::LatLng"], &[]);
    assert_eq!(imports.resolve("super::type::LatLng"), Some("LatLng"));
    assert_eq!(imports.use_targets(), vec!["super::type::LatLng".to_string()]);
}

#[test]
fn use_items_sorted_by_short_name() {
    let imports = assign(&["::ext::Zebra", "::ext::Alpha"], &[]);
    assert_eq!(
        imports.use_targets(),
        vec!["::ext::Alpha".to_string(), "::ext::Zebra".to_string()]
    );
}

#[test]
fn runtime_paths_never_fall_to_parent_rung() {
    // A refused runtime claim leaves the path fully qualified rather than
    // binding its parent module.
    let imports = assign(&["::core::option::Option", "::buffa::EnumValue"], &["Option"]);
    assert_eq!(imports.resolve("::core::option::Option"), None);
    assert_eq!(imports.resolve("::buffa::EnumValue"), Some("EnumValue"));
    assert_eq!(imports.use_targets(), vec!["::buffa::EnumValue".to_string()]);
}

#[test]
fn keyword_leaf_and_empty_leaf_are_not_claimed() {
    let imports = assign(&["::a::self", "::b::"], &[]);
    assert_eq!(imports.resolve("::a::self"), Some("a::self"));
    assert_eq!(imports.resolve("::b::"), Some("b::"));
    assert_eq!(
        imports.use_targets(),
        vec!["::a".to_string(), "::b".to_string()]
    );
}

#[test]
fn shortenable_roots() {
    assert!(shortenable("::x::Y"));
    assert!(shortenable("crate::x::Y"));
    assert!(shortenable("super::x::Y"));
    assert!(!shortenable("self::x::Y"));
    assert!(!shortenable("x::Y"));
    assert!(!shortenable(":x"));
    let _ = ImportResolver::new();
}

#[test]
fn runtime_paths_short_only_at_package_root() {
    let imports = assign(&["::core::option::Option", "::buffa::alloc::vec::Vec"], &[]);
    let r = ImportResolver::new();
    assert_eq!(r.option_at(Some(&imports), 0), "Option");
    assert_eq!(r.vec_at(Some(&imports), 0), "Vec");
    assert_eq!(r.option_at(Some(&imports), 1), "::core::option::Option");
    assert_eq!(r.string_at(Some(&imports), 0), "::buffa::alloc::string::String");
    assert_eq!(r.hashmap_at(None, 0), "::buffa::__private::HashMap");
    assert_eq!(r.message_field_at(None, 2), "::buffa::MessageField");
    assert_eq!(r.enum_value_at(None, 0), "::buffa::EnumValue");
}
