use buffa_codegen::descriptor::{
    DescriptorProto, EnumDescriptorProto, EnumOptions, EnumType, FeatureSet, FieldDescriptorProto,
    FileDescriptorProto, Label, MessageOptions, Type,
};
use buffa_codegen::feature_overrides::{
    apply_feature_overrides, rule_matches, rule_matches_one, AppliedFeatureOverrides,
    EnumTypeOverride, FeatureOverride,
};

fn open_enums(paths: &[&str]) -> Vec<(String, FeatureOverride)> {
    paths
        .iter()
        .map(|p| {
            (
                (*p).to_string(),
                FeatureOverride::EnumType(EnumTypeOverride::Open),
            )
        })
        .collect()
}

fn unmatched_paths(applied: &AppliedFeatureOverrides) -> Vec<String> {
    applied
        .unmatched
        .iter()
        .map(|(path, _)| path.clone())
        .collect()
}

fn enum_desc(name: &str) -> EnumDescriptorProto {
    EnumDescriptorProto {
        name: Some(name.to_string()),
        ..Default::default()
    }
}

fn enum_field(name: &str, number: i32, type_ref: &str) -> FieldDescriptorProto {
    FieldDescriptorProto {
        name: Some(name.to_string()),
        number: Some(number),
        label: Some(Label::LABEL_OPTIONAL),
        field_type: Some(Type::TYPE_ENUM),
        type_ref: Some(type_ref.to_string()),
        ..Default::default()
    }
}

fn test_file() -> FileDescriptorProto {
    FileDescriptorProto {
        name: Some("t.proto".to_string()),
        package: Some("p".to_string()),
        syntax: Some("proto2".to_string()),
        enum_type: vec![enum_desc("E")],
        message_type: vec![DescriptorProto {
            name: Some("M".to_string()),
            field: vec![
                enum_field("a", 1, ".p.E"),
                enum_field("b", 2, ".p.E"),
                enum_field("ext", 3, ".other.Ext"),
            ],
            ..Default::default()
        }],
        ..Default::default()
    }
}

fn field_enum_type(f: &FieldDescriptorProto) -> Option<EnumType> {
    f.options.and_then(|o| o.features).and_then(|fs| fs.enum_type)
}

fn enum_enum_type(e: &EnumDescriptorProto) -> Option<EnumType> {
    e.options.and_then(|o| o.features).and_then(|fs| fs.enum_type)
}

fn matches(rules: &[String], fqn: &str) -> bool {
    let mut matched = vec![false; rules.len()];
    rule_matches(rules, fqn, &mut matched)
}

#[test]
fn no_rules_returns_none() {
    assert!(apply_feature_overrides(&[test_file()], &[]).is_none());
}

#[test]
fn enum_rule_mutates_enum_not_fields() {
    let applied = apply_feature_overrides(&[test_file()], &open_enums(&[".p.E"])).unwrap();
    assert!(applied.unmatched.is_empty());
    let e = &applied.files[0].enum_type[0];
    assert_eq!(enum_enum_type(e), Some(EnumType::OPEN));
    assert_eq!(
        field_enum_type(&applied.files[0].message_type[0].field[0]),
        None
    );
}

#[test]
fn field_rule_mutates_only_that_field() {
    let applied = apply_feature_overrides(&[test_file()], &open_enums(&[".p.M.a"])).unwrap();
    assert!(applied.unmatched.is_empty());
    let msg = &applied.files[0].message_type[0];
    assert_eq!(field_enum_type(&msg.field[0]), Some(EnumType::OPEN));
    assert_eq!(field_enum_type(&msg.field[1]), None);
    assert!(applied.files[0].enum_type[0].options.is_none());
}

#[test]
fn extern_enum_rule_falls_back_to_field_injection() {
    let applied =
        apply_feature_overrides(&[test_file()], &open_enums(&[".other.Ext"])).unwrap();
    assert!(applied.unmatched.is_empty());
    let msg = &applied.files[0].message_type[0];
    assert_eq!(field_enum_type(&msg.field[0]), None);
    assert_eq!(field_enum_type(&msg.field[2]), Some(EnumType::OPEN));
}

#[test]
fn inert_rules_are_reported_unmatched() {
    let applied = apply_feature_overrides(
        &[test_file()],
        &open_enums(&[".p.M.a", ".p.Missing", ".p.M.a.typo"]),
    )
    .unwrap();
    assert_eq!(
        unmatched_paths(&applied),
        vec![".p.Missing".to_string(), ".p.M.a.typo".to_string()]
    );
}

#[test]
fn broad_prefix_skips_redundant_field_injection() {
    let applied = apply_feature_overrides(&[test_file()], &open_enums(&[".p"])).unwrap();
    assert!(applied.unmatched.is_empty());
    let file = &applied.files[0];
    assert_eq!(enum_enum_type(&file.enum_type[0]), Some(EnumType::OPEN));
    assert_eq!(field_enum_type(&file.message_type[0].field[0]), None);
    assert_eq!(field_enum_type(&file.message_type[0].field[1]), None);
    assert_eq!(
        field_enum_type(&file.message_type[0].field[2]),
        Some(EnumType::OPEN)
    );
}

#[test]
fn nested_enum_and_empty_package_are_matchable() {
    let file = FileDescriptorProto {
        name: Some("np.proto".to_string()),
        syntax: Some("proto2".to_string()),
        message_type: vec![DescriptorProto {
            name: Some("Outer".to_string()),
            enum_type: vec![enum_desc("Inner")],
            field: vec![enum_field("e", 1, ".Outer.Inner")],
            ..Default::default()
        }],
        ..Default::default()
    };
    let applied = apply_feature_overrides(&[file], &open_enums(&[".Outer.Inner"])).unwrap();
    assert!(applied.unmatched.is_empty());
    assert_eq!(
        enum_enum_type(&applied.files[0].message_type[0].enum_type[0]),
        Some(EnumType::OPEN)
    );
    assert_eq!(
        field_enum_type(&applied.files[0].message_type[0].field[0]),
        None
    );
}

#[test]
fn rule_matching_normalizes_and_keeps_boundaries() {
    assert!(matches(&[".".to_string()], ".my.pkg.Msg.status"));
    assert!(matches(
        &["my.pkg.Msg.status.".to_string()],
        ".my.pkg.Msg.status"
    ));
    assert!(matches(
        &["  .my.pkg.Status.  ".to_string()],
        ".my.pkg.Status"
    ));

    assert!(!matches(&["".to_string()], ".my.pkg.Msg.status"));
    assert!(!matches(&["...".to_string()], ".my.pkg.Msg.status"));
    assert!(!matches(&[".my.pk".to_string()], ".my.pkg.Msg.status"));
}

#[test]
fn every_matching_rule_is_marked() {
    let rules = vec![".p".to_string(), ".q".to_string(), "p.M".to_string()];
    let mut matched = vec![false; 3];
    assert!(rule_matches(&rules, ".p.M.a", &mut matched));
    assert_eq!(matched, vec![true, false, true]);
    assert!(!rule_matches(&rules, ".r", &mut matched));
    assert_eq!(matched, vec![true, false, true]);
    assert!(rule_matches_one("p.M", "p.M.a"));
    assert!(!rule_matches_one(".p.M", "p.M.a"));
}

fn map_file(value_type: &str) -> FileDescriptorProto {
    let entry = DescriptorProto {
        name: Some("TagsEntry".to_string()),
        field: vec![
            FieldDescriptorProto {
                name: Some("key".to_string()),
                number: Some(1),
                label: Some(Label::LABEL_OPTIONAL),
                field_type: Some(Type::TYPE_STRING),
                ..Default::default()
            },
            enum_field("value", 2, value_type),
        ],
        options: Some(MessageOptions {
            map_entry: Some(true),
        }),
        ..Default::default()
    };
    FileDescriptorProto {
        name: Some("m.proto".to_string()),
        package: Some("p".to_string()),
        enum_type: vec![enum_desc("E")],
        message_type: vec![DescriptorProto {
            name: Some("M".to_string()),
            field: vec![FieldDescriptorProto {
                name: Some("tags".to_string()),
                number: Some(1),
                label: Some(Label::LABEL_REPEATED),
                field_type: Some(Type::TYPE_MESSAGE),
                type_ref: Some(".p.M.TagsEntry".to_string()),
                ..Default::default()
            }],
            nested_type: vec![entry],
            ..Default::default()
        }],
        ..Default::default()
    }
}

#[test]
fn map_field_rule_opens_entry_value_field() {
    let applied = apply_feature_overrides(&[map_file(".other.Ext")], &open_enums(&[".p.M.tags"])).unwrap();
    assert!(applied.unmatched.is_empty());
    let entry = &applied.files[0].message_type[0].nested_type[0];
    assert_eq!(field_enum_type(&entry.field[0]), None);
    assert_eq!(field_enum_type(&entry.field[1]), Some(EnumType::OPEN));
    // The map field itself is message-typed and carries nothing.
    assert_eq!(
        field_enum_type(&applied.files[0].message_type[0].field[0]),
        None
    );
}

#[test]
fn map_value_opened_via_local_enum_needs_no_field_injection() {
    let applied = apply_feature_overrides(
        &[map_file(".p.E")],
        &open_enums(&[".p.M.tags", ".p.E"]),
    )
    .unwrap();
    assert!(applied.unmatched.is_empty());
    let file = &applied.files[0];
    assert_eq!(enum_enum_type(&file.enum_type[0]), Some(EnumType::OPEN));
    assert_eq!(
        field_enum_type(&file.message_type[0].nested_type[0].field[1]),
        None
    );
}

#[test]
fn non_enum_map_rule_is_reported_unmatched() {
    let mut file = map_file(".p.E");
    file.message_type[0].nested_type[0].field[1].field_type = Some(Type::TYPE_INT32);
    let applied = apply_feature_overrides(&[file], &open_enums(&[".p.M.tags"])).unwrap();
    assert_eq!(unmatched_paths(&applied), vec![".p.M.tags".to_string()]);
}

#[test]
fn existing_enum_options_are_overwritten_with_open() {
    let mut file = test_file();
    file.enum_type[0].options = Some(EnumOptions {
        features: Some(FeatureSet {
            enum_type: Some(EnumType::CLOSED),
        }),
    });
    let applied = apply_feature_overrides(&[file], &open_enums(&["p.E"])).unwrap();
    assert_eq!(
        enum_enum_type(&applied.files[0].enum_type[0]),
        Some(EnumType::OPEN)
    );
    assert_eq!(applied.files[0].name.as_deref(), Some("t.proto"));
    assert_eq!(applied.files[0].message_type[0].field.len(), 3);
}

#[test]
fn law_unmatched_keep_configured_order() {
    let applied = apply_feature_overrides(
        &[test_file()],
        &open_enums(&[".z.Gone", ".p.M.a", ".a.Gone"]),
    )
    .unwrap();
    assert_eq!(
        unmatched_paths(&applied),
        vec![".z.Gone".to_string(), ".a.Gone".to_string()]
    );
}
