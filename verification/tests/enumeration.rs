use buffa_codegen::descriptor::EnumValueDescriptorProto;
use buffa_codegen::enumeration::{
    enum_layout, idiomatic_aliases, value_roles, AliasOutcome, AliasRecord, ValueRole,
};
use buffa_codegen::error::CodeGenError;

fn value(name: Option<&str>, number: Option<i32>) -> EnumValueDescriptorProto {
    EnumValueDescriptorProto {
        name: name.map(|n| n.to_string()),
        number,
    }
}

#[test]
fn later_values_with_a_used_number_are_aliases() {
    let values = vec![
        value(Some("UNKNOWN"), Some(0)),
        value(Some("STARTED"), Some(1)),
        value(Some("RUNNING"), Some(1)),
        value(Some("DEFAULT"), Some(0)),
        value(Some("DONE"), Some(2)),
    ];
    assert_eq!(
        value_roles(&values).unwrap(),
        vec![
            ValueRole::Primary,
            ValueRole::Primary,
            ValueRole::Alias(1),
            ValueRole::Alias(0),
            ValueRole::Primary,
        ]
    );
}

#[test]
fn empty_enum_has_no_roles() {
    assert!(value_roles(&Vec::new()).unwrap().is_empty());
}

#[test]
fn missing_name_or_number_is_reported_first_in_order() {
    let values = vec![value(Some("A"), Some(0)), value(None, None)];
    assert_eq!(
        value_roles(&values),
        Err(CodeGenError::MissingField("enum_value.name".to_string()))
    );
    let values = vec![value(Some("A"), None), value(None, Some(1))];
    let err = value_roles(&values).unwrap_err();
    assert_eq!(err, CodeGenError::MissingField("enum_value.number".to_string()));
    assert_eq!(err.message(), "enum_value.number");
}


fn rec(name: &str, camel_full: &str, camel_stripped: Option<&str>) -> AliasRecord {
    AliasRecord {
        proto_name: name.to_string(),
        target: name.to_string(),
        own_ident: name.to_string(),
        camel_full: camel_full.to_string(),
        camel_stripped: camel_stripped.map(|s| s.to_string()),
        ident_full: camel_full.to_string(),
        ident_stripped: camel_stripped.map(|s| s.to_string()),
    }
}

fn pairs(v: &[(&str, &str)]) -> Vec<(String, String)> {
    v.iter().map(|(a, b)| (a.to_string(), b.to_string())).collect()
}

#[test]
fn aliases_strip_a_shared_prefix() {
    let records = vec![
        rec("STATUS_UNKNOWN", "StatusUnknown", Some("Unknown")),
        rec("STATUS_ACTIVE", "StatusActive", Some("Active")),
    ];
    assert_eq!(
        idiomatic_aliases(&records),
        AliasOutcome::Emit(pairs(&[("Unknown", "STATUS_UNKNOWN"), ("Active", "STATUS_ACTIVE")]))
    );
}

#[test]
fn aliases_keep_full_names_unless_every_value_strips() {
    let records = vec![
        rec("COLOR_RED", "ColorRed", Some("Red")),
        rec("BLUE", "Blue", None),
        rec("COLOR_9", "Color9", Some("9")),
    ];
    assert_eq!(
        idiomatic_aliases(&records),
        AliasOutcome::Emit(pairs(&[("ColorRed", "COLOR_RED"), ("Blue", "BLUE"), ("Color9", "COLOR_9")]))
    );
}

#[test]
fn aliases_equal_to_own_identifier_are_skipped() {
    let records = vec![rec("Ok", "Ok", None), rec("NOT_OK", "NotOk", None)];
    assert_eq!(
        idiomatic_aliases(&records),
        AliasOutcome::Emit(pairs(&[("NotOk", "NOT_OK")]))
    );
    assert_eq!(idiomatic_aliases(&Vec::new()), AliasOutcome::Emit(Vec::new()));
}

#[test]
fn colliding_aliases_suppress_all() {
    let records = vec![
        rec("FOO_BAR", "FooBar", None),
        rec("FOOBAR", "FooBar", None),
        rec("BAZ", "Baz", None),
    ];
    assert_eq!(
        idiomatic_aliases(&records),
        AliasOutcome::Suppressed {
            conflicts: vec![(
                "FooBar".to_string(),
                vec!["FOOBAR".to_string(), "FOO_BAR".to_string()]
            )],
            invalid: Vec::new(),
        }
    );
}

#[test]
fn alias_shadowing_an_existing_variant_is_a_conflict() {
    let mut a = rec("Alpha", "Alpha", None);
    a.own_ident = "Alpha".to_string();
    let b = rec("ALPHA", "Alpha", None);
    assert_eq!(
        idiomatic_aliases(&vec![a, b]),
        AliasOutcome::Suppressed {
            conflicts: vec![(
                "Alpha".to_string(),
                vec!["ALPHA".to_string(), "Alpha".to_string()]
            )],
            invalid: Vec::new(),
        }
    );
}

#[test]
fn unusable_forms_are_reported() {
    let records = vec![rec("X", "", None), rec("Y", "Y", None)];
    assert_eq!(
        idiomatic_aliases(&records),
        AliasOutcome::Suppressed { conflicts: Vec::new(), invalid: vec!["X".to_string()] }
    );
}

#[test]
fn enum_layout_maps_numbers_to_first_values_and_lists_variants() {
    let values = vec![
        value(Some("STARTED"), Some(1)),
        value(Some("IDLE"), Some(0)),
        value(Some("RUNNING"), Some(1)),
        value(Some("DONE"), Some(2)),
        value(Some("FINISHED"), Some(2)),
    ];
    let l = enum_layout(&values).unwrap();
    assert_eq!(l.default_index, Some(0));
    assert_eq!(l.from_i32, vec![(1, 0), (0, 1), (2, 3)]);
    assert_eq!(l.name_targets, vec![0, 1, 0, 3, 3]);
    assert_eq!(l.values, vec![0, 1, 3]);
    assert_eq!(
        l.roles,
        vec![
            ValueRole::Primary,
            ValueRole::Primary,
            ValueRole::Alias(0),
            ValueRole::Primary,
            ValueRole::Alias(3)
        ]
    );
}

#[test]
fn enum_layout_of_empty_enum_has_no_default() {
    let l = enum_layout(&vec![]).unwrap();
    assert_eq!(l.default_index, None);
    assert!(l.from_i32.is_empty() && l.values.is_empty() && l.name_targets.is_empty());
}

#[test]
fn enum_layout_reports_missing_number() {
    let values = vec![value(Some("A"), Some(0)), value(Some("B"), None)];
    assert!(matches!(enum_layout(&values), Err(CodeGenError::MissingField(f)) if f == "enum_value.number"));
}
