use buffa_codegen::comments::{fqn_comments, format_comment};
use buffa_codegen::descriptor::{
    DescriptorProto, EnumDescriptorProto, EnumValueDescriptorProto, FieldDescriptorProto,
    FileDescriptorProto, Location, OneofDescriptorProto, SourceCodeInfo,
};
use buffa_codegen::doc_lines::{doc_lines_with_refs, doc_lines_with_tag, fence_info};
use buffa_codegen::sanitize::{find_ref_link, resolve_proto_ref, sanitize_line_with_refs};
use buffa_codegen::string_map::StringMap;

fn make_location(path: Vec<i32>, leading: Option<&str>, trailing: Option<&str>) -> Location {
    Location {
        path,
        leading_comments: leading.map(|s| s.to_string()),
        trailing_comments: trailing.map(|s| s.to_string()),
        ..Default::default()
    }
}

fn make_file_with_locations(
    package: &str,
    messages: Vec<DescriptorProto>,
    enums: Vec<EnumDescriptorProto>,
    locations: Vec<Location>,
) -> FileDescriptorProto {
    FileDescriptorProto {
        package: Some(package.to_string()),
        message_type: messages,
        enum_type: enums,
        source_code_info: Some(SourceCodeInfo {
            location: locations,
        }),
        ..Default::default()
    }
}

fn make_field(name: &str) -> FieldDescriptorProto {
    FieldDescriptorProto {
        name: Some(name.to_string()),
        ..Default::default()
    }
}

fn make_enum(name: &str, values: &[&str]) -> EnumDescriptorProto {
    EnumDescriptorProto {
        name: Some(name.to_string()),
        value: values
            .iter()
            .enumerate()
            .map(|(i, v)| EnumValueDescriptorProto {
                name: Some(v.to_string()),
                number: Some(i as i32),
            })
            .collect(),
        ..Default::default()
    }
}

#[test]
fn test_empty_source_code_info() {
    let file = FileDescriptorProto::default();
    let map = fqn_comments(&file);
    assert!(map.is_empty());
}

#[test]
fn test_message_comment() {
    let file = make_file_with_locations(
        "pkg",
        vec![DescriptorProto {
            name: Some("Person".to_string()),
            ..Default::default()
        }],
        vec![],
        vec![make_location(vec![4, 0], Some("A test message.\n"), None)],
    );
    let map = fqn_comments(&file);
    assert_eq!(
        map.get("pkg.Person").map(|s| s.as_str()),
        Some("A test message.")
    );
}

#[test]
fn test_field_comment() {
    let file = make_file_with_locations(
        "pkg",
        vec![DescriptorProto {
            name: Some("User".to_string()),
            field: vec![make_field("email")],
            ..Default::default()
        }],
        vec![],
        vec![make_location(
            vec![4, 0, 2, 0],
            Some("The user's email.\n"),
            None,
        )],
    );
    let map = fqn_comments(&file);
    assert_eq!(
        map.get("pkg.User.email").map(|s| s.as_str()),
        Some("The user's email.")
    );
}

#[test]
fn test_enum_and_value_comments() {
    let file = make_file_with_locations(
        "pkg",
        vec![],
        vec![make_enum("Status", &["UNKNOWN", "ACTIVE"])],
        vec![
            make_location(vec![5, 0], Some("Status enum.\n"), None),
            make_location(vec![5, 0, 2, 0], None, Some("Unknown status.\n")),
            make_location(vec![5, 0, 2, 1], Some("Active status.\n"), None),
        ],
    );
    let map = fqn_comments(&file);
    assert_eq!(
        map.get("pkg.Status").map(|s| s.as_str()),
        Some("Status enum.")
    );
    assert_eq!(
        map.get("pkg.Status.UNKNOWN").map(|s| s.as_str()),
        Some("Unknown status.")
    );
    assert_eq!(
        map.get("pkg.Status.ACTIVE").map(|s| s.as_str()),
        Some("Active status.")
    );
}

#[test]
fn test_oneof_comment() {
    let file = make_file_with_locations(
        "pkg",
        vec![DescriptorProto {
            name: Some("Event".to_string()),
            oneof_decl: vec![OneofDescriptorProto {
                name: Some("payload".to_string()),
            }],
            ..Default::default()
        }],
        vec![],
        vec![make_location(
            vec![4, 0, 8, 0],
            Some("The payload.\n"),
            None,
        )],
    );
    let map = fqn_comments(&file);
    assert_eq!(
        map.get("pkg.Event.payload").map(|s| s.as_str()),
        Some("The payload.")
    );
}

#[test]
fn test_nested_message_comment() {
    let file = make_file_with_locations(
        "pkg",
        vec![DescriptorProto {
            name: Some("Outer".to_string()),
            nested_type: vec![DescriptorProto {
                name: Some("Inner".to_string()),
                field: vec![make_field("value")],
                ..Default::default()
            }],
            ..Default::default()
        }],
        vec![],
        vec![
            make_location(vec![4, 0, 3, 0], Some("A nested type.\n"), None),
            make_location(vec![4, 0, 3, 0, 2, 0], Some("The value.\n"), None),
        ],
    );
    let map = fqn_comments(&file);
    assert_eq!(
        map.get("pkg.Outer.Inner").map(|s| s.as_str()),
        Some("A nested type.")
    );
    assert_eq!(
        map.get("pkg.Outer.Inner.value").map(|s| s.as_str()),
        Some("The value.")
    );
}

#[test]
fn test_nested_enum_in_message_comment() {
    // Path [4, 0, 4, 0] = message_type[0].enum_type[0] (MSG_ENUM_TYPE = 4).
    let file = make_file_with_locations(
        "pkg",
        vec![DescriptorProto {
            name: Some("Container".to_string()),
            enum_type: vec![make_enum("Kind", &["UNSET", "A"])],
            ..Default::default()
        }],
        vec![],
        vec![
            make_location(vec![4, 0, 4, 0], Some("Kind of thing.\n"), None),
            make_location(vec![4, 0, 4, 0, 2, 1], Some("The A kind.\n"), None),
        ],
    );
    let map = fqn_comments(&file);
    assert_eq!(
        map.get("pkg.Container.Kind").map(|s| s.as_str()),
        Some("Kind of thing.")
    );
    assert_eq!(
        map.get("pkg.Container.Kind.A").map(|s| s.as_str()),
        Some("The A kind.")
    );
}

#[test]
fn test_leading_and_trailing_combined() {
    let file = make_file_with_locations(
        "pkg",
        vec![DescriptorProto {
            name: Some("Msg".to_string()),
            ..Default::default()
        }],
        vec![],
        vec![make_location(
            vec![4, 0],
            Some("Leading.\n"),
            Some("Trailing.\n"),
        )],
    );
    let map = fqn_comments(&file);
    assert_eq!(
        map.get("pkg.Msg").map(|s| s.as_str()),
        Some("Leading.\n\nTrailing.")
    );
}

#[test]
fn test_detached_comments() {
    let file = make_file_with_locations(
        "pkg",
        vec![DescriptorProto {
            name: Some("Msg".to_string()),
            ..Default::default()
        }],
        vec![],
        vec![{
            let mut loc = make_location(vec![4, 0], Some("Main.\n"), None);
            loc.leading_detached_comments = vec!["Detached.\n".to_string()];
            loc
        }],
    );
    let map = fqn_comments(&file);
    assert_eq!(
        map.get("pkg.Msg").map(|s| s.as_str()),
        Some("Detached.\n\nMain.")
    );
}

#[test]
fn test_whitespace_only_comments_ignored() {
    let file = make_file_with_locations(
        "pkg",
        vec![DescriptorProto {
            name: Some("Msg".to_string()),
            ..Default::default()
        }],
        vec![],
        vec![make_location(vec![4, 0], Some("  \n  "), Some("  "))],
    );
    let map = fqn_comments(&file);
    assert!(!map.contains_key("pkg.Msg"));
}

#[test]
fn test_empty_package() {
    let file = make_file_with_locations(
        "",
        vec![DescriptorProto {
            name: Some("Root".to_string()),
            field: vec![make_field("id")],
            ..Default::default()
        }],
        vec![],
        vec![
            make_location(vec![4, 0], Some("Root msg.\n"), None),
            make_location(vec![4, 0, 2, 0], Some("The id.\n"), None),
        ],
    );
    let map = fqn_comments(&file);
    assert_eq!(map.get("Root").map(|s| s.as_str()), Some("Root msg."));
    assert_eq!(map.get("Root.id").map(|s| s.as_str()), Some("The id."));
}

// --- doc lines --------------------------------------------------------------

/// Renders doc lines the way `#[doc = "…"]` attributes print as tokens.
fn render(lines: &[String]) -> String {
    lines
        .iter()
        .map(|l| format!("# [doc = {:?}]", l))
        .collect::<Vec<_>>()
        .join(" ")
}

fn doc_tokens(text: &str) -> String {
    render(&doc_lines_with_refs(text, "", &StringMap::new()))
}

#[test]
fn test_doc_plain_text_gets_leading_space() {
    let out = doc_tokens("hello world");
    assert_eq!(out, "# [doc = \" hello world\"]");
}

#[test]
fn test_doc_line_already_spaced_kept_as_is() {
    let out = doc_tokens(" already spaced");
    assert_eq!(out, "# [doc = \" already spaced\"]");
}

#[test]
fn test_doc_empty_line_preserved() {
    let out = doc_tokens("a\n\nb");
    assert_eq!(out, "# [doc = \" a\"] # [doc = \"\"] # [doc = \" b\"]");
}

#[test]
fn test_doc_indented_block_gets_text_fence() {
    let out = doc_tokens("Example:\n    x = 1;\n    y = 2;");
    assert!(out.contains("```text"), "should open text fence: {out}");
    assert!(out.contains("\" x = 1;\""), "indent stripped: {out}");
    assert!(out.ends_with("# [doc = \" ```\"]"), "should close: {out}");
}

#[test]
fn test_doc_blank_line_within_indented_block_keeps_fence_open() {
    let out = doc_tokens("    line1\n\n    line2");
    let fence_count = out.matches("```").count();
    assert_eq!(
        fence_count, 2,
        "one open + one close, not two blocks: {out}"
    );
}

#[test]
fn test_doc_trailing_unclosed_block_gets_closing_fence() {
    let out = doc_tokens("text\n    code");
    assert!(out.ends_with("# [doc = \" ```\"]"), "trailing close: {out}");
}

#[test]
fn test_doc_tab_indent_detected() {
    let out = doc_tokens("\tcode line");
    assert!(out.contains("```text"), "tab triggers fence: {out}");
}

#[test]
fn test_doc_indent_measured_in_columns_not_literal_spaces() {
    for prefix in [" \t", "  \t", "   \t", "\t"] {
        let out = doc_tokens(&format!("{prefix}this is not rust !!!"));
        assert!(
            out.contains("```text"),
            "{prefix:?} reaches column 4 and must be fenced: {out}"
        );
    }
    for prefix in [" ", "  ", "   "] {
        let out = doc_tokens(&format!("{prefix}just prose"));
        assert!(
            !out.contains("```text"),
            "{prefix:?} is under column 4 and must stay prose: {out}"
        );
    }
}

#[test]
fn test_doc_empty_input() {
    assert_eq!(doc_tokens(""), "");
}

#[test]
fn test_doc_user_markdown_fence_keeps_language_and_gains_ignore() {
    let out = doc_tokens("Example:\n```go\nx := 1\n```");
    assert!(out.contains("\" ```go,ignore\""), "opener inerted: {out}");
    assert_eq!(
        out.matches("```").count(),
        2,
        "user fence preserved, not double-fenced: {out}"
    );
    assert!(!out.contains("```text"), "no synthetic fence: {out}");
}

#[test]
fn test_doc_user_fence_with_indented_content_not_double_fenced() {
    let out = doc_tokens("```\n    int x = 1;\n```");
    assert_eq!(
        out.matches("```").count(),
        2,
        "no nested fence inside user fence: {out}"
    );
}

// --- format_comment indentation preservation ----------------------------------

#[test]
fn test_format_comment_preserves_leading_indent() {
    let loc = Location {
        leading_comments: Some("    int x = 1;\n    int y = 2;\n".to_string()),
        ..Default::default()
    };
    let out = format_comment(&loc).unwrap();
    assert!(
        out.starts_with("    "),
        "leading indent must survive for fencing: {out:?}"
    );
}

#[test]
fn test_format_comment_strips_leading_newlines_keeps_spaces() {
    let loc = Location {
        leading_comments: Some("\n\n hello\n".to_string()),
        ..Default::default()
    };
    assert_eq!(format_comment(&loc).as_deref(), Some(" hello"));
}

// --- sanitize_line_with_refs (base escaping, no proto context) ----------------

fn sl(line: &str) -> String {
    sanitize_line_with_refs(line, "", &StringMap::new())
}

#[test]
fn test_sanitize_line() {
    let cases: &[(&str, &str, &str)] = &[
        ("plain text", "plain text", "plain"),
        ("hello world", "hello world", "h_not_url"),
        (
            "see [google.protobuf.Duration][]",
            r"see \[google.protobuf.Duration\]\[\]",
            "collapsed_ref_link",
        ),
        ("a [foo] b", r"a \[foo\] b", "shortcut_link"),
        ("[foo][bar]", r"\[foo\]\[bar\]", "full_ref_link"),
        ("[.{frac_sec}]Z", r"\[.{frac_sec}\]Z", "format_string"),
        (
            "[RFC 3339](https://ietf.org/rfc/rfc3339.txt)",
            "[RFC 3339](https://ietf.org/rfc/rfc3339.txt)",
            "inline_link",
        ),
        (
            "[m()](https://e.com/#m())",
            "[m()](https://e.com/#m())",
            "inline_link_nested_parens",
        ),
        (r"\[foo\]", r"\[foo\]", "pre_escaped"),
        ("`[foo]` bar", "`[foo]` bar", "backtick_brackets"),
        ("`Option<T>` bar", "`Option<T>` bar", "backtick_generics"),
        ("``[foo]``", "``[foo]``", "double_backtick"),
        ("`` `<T>` ``", "`` `<T>` ``", "double_backtick_inner"),
        ("``` x ` y ```", "``` x ` y ```", "triple_backtick"),
        ("`` no closer", "`` no closer", "unclosed_backticks"),
        (
            "[résumé](http://e.com)",
            "[résumé](http://e.com)",
            "utf8_link_text",
        ),
        (
            "see https://example.com/x for details",
            "see <https://example.com/x> for details",
            "bare_url",
        ),
        (
            "(https://example.com)",
            "(<https://example.com>)",
            "bare_url_in_parens",
        ),
        ("<https://example.com>", "<https://example.com>", "autolink"),
        ("Option<T>", r"Option\<T\>", "generics"),
        ("HashMap<K, V>", r"HashMap\<K, V\>", "generics_multi"),
        ("café — ok", "café — ok", "utf8"),
        ("`café` [x]", r"`café` \[x\]", "utf8_backtick"),
    ];
    for (input, want, name) in cases {
        assert_eq!(sl(input), *want, "case: {name}");
    }
}

#[test]
fn test_sanitize_line_unbalanced() {
    assert_eq!(sl("[foo"), r"\[foo");
    assert_eq!(sl("foo]"), r"foo\]");
    assert_eq!(sl("[foo]("), r"\[foo\](");
    assert_eq!(sl("<http://x"), r"\<<http://x>");
    assert_eq!(sl("a > b"), r"a \> b");
    assert_eq!(sl("trailing \\"), "trailing \\");
}

// ── find_ref_link ──────────────────────────────────────────────────────────

#[test]
fn test_find_ref_link_full_form() {
    let line = "[Book][google.example.v1.Book]";
    let result = find_ref_link(line, 0);
    assert_eq!(
        result,
        Some((
            "Book".to_string(),
            "google.example.v1.Book".to_string(),
            line.len()
        ))
    );
}

#[test]
fn test_find_ref_link_implied_form() {
    let line = "[Book][]";
    let result = find_ref_link(line, 0);
    assert_eq!(
        result,
        Some(("Book".to_string(), "".to_string(), line.len()))
    );
}

#[test]
fn test_find_ref_link_not_matched_for_inline_link() {
    let line = "[text](https://example.com)";
    assert_eq!(find_ref_link(line, 0), None);
}

#[test]
fn test_find_ref_link_bare_bracket_not_matched() {
    let line = "[foo]";
    assert_eq!(find_ref_link(line, 0), None);
}

// ── resolve_proto_ref ──────────────────────────────────────────────────────

#[test]
fn test_resolve_proto_ref_fully_qualified() {
    let mut map = StringMap::new();
    map.insert(
        ".google.example.v1.Book".into(),
        "google::example::v1::Book".into(),
    );
    let result = resolve_proto_ref("Book", "google.example.v1.Book", "any.scope", &map);
    assert_eq!(
        result.as_deref(),
        Some("[Book](crate::google::example::v1::Book)")
    );
}

#[test]
fn test_resolve_proto_ref_scope_relative() {
    let mut map = StringMap::new();
    map.insert(
        ".google.example.v1.Genre".into(),
        "google::example::v1::Genre".into(),
    );
    let result = resolve_proto_ref("Genre", "Genre", "google.example.v1.Book", &map);
    assert_eq!(
        result.as_deref(),
        Some("[Genre](crate::google::example::v1::Genre)")
    );
}

#[test]
fn test_resolve_proto_ref_implied_form() {
    let mut map = StringMap::new();
    map.insert(
        ".google.example.v1.Book".into(),
        "google::example::v1::Book".into(),
    );
    let result = resolve_proto_ref("Book", "", "google.example.v1.Library", &map);
    assert_eq!(
        result.as_deref(),
        Some("[Book](crate::google::example::v1::Book)")
    );
}

#[test]
fn test_resolve_proto_ref_member_ref_returns_none() {
    let mut map = StringMap::new();
    map.insert(".pkg.Genre".into(), "pkg::Genre".into());
    assert_eq!(
        resolve_proto_ref("Genre.GENRE_SCI_FI", "", "pkg.Book", &map),
        None,
    );
    assert_eq!(
        resolve_proto_ref("X", "pkg.Genre.GENRE_SCI_FI", "pkg.Book", &map),
        None,
    );
}

#[test]
fn test_resolve_proto_ref_extern_returns_none() {
    let mut map = StringMap::new();
    map.insert(
        ".google.protobuf.Timestamp".into(),
        "::buffa_types::google::protobuf::Timestamp".into(),
    );
    let result =
        resolve_proto_ref("Timestamp", "google.protobuf.Timestamp", "my.pkg.Msg", &map);
    assert_eq!(result, None);
}

#[test]
fn test_resolve_proto_ref_crate_extern_returns_none() {
    let mut map = StringMap::new();
    map.insert(
        ".google.api.Foo".into(),
        "crate::vendored::google::api::Foo".into(),
    );
    let result = resolve_proto_ref("Foo", "google.api.Foo", "my.pkg.Msg", &map);
    assert_eq!(result, None);
}

#[test]
fn test_resolve_proto_ref_keyword_segment_escaped() {
    let mut map = StringMap::new();
    map.insert(".google.type.LatLng".into(), "google::type::LatLng".into());
    let result = resolve_proto_ref("LatLng", "google.type.LatLng", "my.pkg.Msg", &map);
    assert_eq!(
        result.as_deref(),
        Some("[LatLng](crate::google::r#type::LatLng)")
    );
}

#[test]
fn test_resolve_proto_ref_unknown_returns_none() {
    let map = StringMap::new();
    let result = resolve_proto_ref("Foo", "NoSuchType", "my.pkg.Msg", &map);
    assert_eq!(result, None);
}

#[test]
fn test_resolve_proto_ref_empty_effective_ref_returns_none() {
    let map = StringMap::new();
    let result = resolve_proto_ref("", "", "my.pkg.Msg", &map);
    assert_eq!(result, None);
}

// ── sanitize_line_with_refs ────────────────────────────────────────────────

#[test]
fn test_sanitize_with_refs_resolves_fq() {
    let mut map = StringMap::new();
    map.insert(
        ".google.example.v1.Book".into(),
        "google::example::v1::Book".into(),
    );
    let out = sanitize_line_with_refs(
        "See [Book][google.example.v1.Book] for details.",
        "google.example.v1.Library",
        &map,
    );
    assert!(
        out.contains("[Book](crate::google::example::v1::Book)"),
        "got: {out}"
    );
}

#[test]
fn test_sanitize_with_refs_falls_back_for_unknown() {
    let out = sanitize_line_with_refs("[Foo][unknown.Type]", "my.pkg.Msg", &StringMap::new());
    assert_eq!(out, r"\[Foo\]\[unknown.Type\]");
}

#[test]
fn test_sanitize_with_refs_preserves_inline_links() {
    let line = "[RFC 3339](https://ietf.org/rfc/rfc3339.txt)";
    let out = sanitize_line_with_refs(line, "my.pkg.Msg", &StringMap::new());
    assert_eq!(out, line);
}

#[test]
fn test_sanitize_with_refs_implied_form() {
    let mut map = StringMap::new();
    map.insert(".my.pkg.Foo".into(), "my::pkg::Foo".into());
    let out = sanitize_line_with_refs("See [Foo][].", "my.pkg.Bar", &map);
    assert!(out.contains("[Foo](crate::my::pkg::Foo)"), "got: {out}");
}

#[test]
fn test_sanitize_with_refs_display_angle_brackets_escaped() {
    let mut map = StringMap::new();
    map.insert(".my.pkg.Foo".into(), "my::pkg::Foo".into());
    let out = sanitize_line_with_refs("[Foo<T>][my.pkg.Foo]", "my.pkg.Bar", &map);
    assert_eq!(out, r"[Foo\<T\>](crate::my::pkg::Foo)");
    let out2 = sanitize_line_with_refs("[Foo<T>][unknown.Type]", "my.pkg.Bar", &StringMap::new());
    assert_eq!(out2, r"\[Foo\<T\>\]\[unknown.Type\]");
}

#[test]
fn test_sanitize_with_refs_display_backtick_span_preserved() {
    let mut map = StringMap::new();
    map.insert(".my.pkg.Foo".into(), "my::pkg::Foo".into());
    let out = sanitize_line_with_refs("[`Option<T>`][my.pkg.Foo]", "my.pkg.Bar", &map);
    assert_eq!(out, "[`Option<T>`](crate::my::pkg::Foo)");
    let out2 =
        sanitize_line_with_refs("[`Option<T>`][unknown.Type]", "my.pkg.Bar", &StringMap::new());
    assert_eq!(out2, r"\[`Option<T>`\]\[unknown.Type\]");
}

#[test]
fn test_sanitize_with_refs_ref_target_angle_brackets_escaped() {
    let out = sanitize_line_with_refs("[Foo][a<b>c]", "my.pkg.Msg", &StringMap::new());
    assert_eq!(out, r"\[Foo\]\[a\<b\>c\]");
}

#[test]
fn test_sanitize_with_refs_code_span_untouched() {
    let mut map = StringMap::new();
    map.insert(".my.pkg.Foo".into(), "my::pkg::Foo".into());
    let out = sanitize_line_with_refs("`[Foo][my.pkg.Foo]`", "my.pkg.Bar", &map);
    assert!(
        out.contains("`[Foo][my.pkg.Foo]`"),
        "code span unchanged: {out}"
    );
}

#[test]
fn test_doc_tokens_sanitizes_prose_not_code() {
    let out = doc_tokens("Prose [foo].\n    code [bar]\nMore.");
    assert!(out.contains(r"\\[foo\\]"), "prose escaped: {out}");
    assert!(out.contains("code [bar]"), "code untouched: {out}");
    let out = doc_tokens("```\n[x](y)\nOption<T>\n```");
    assert!(out.contains("Option<T>"), "fence untouched: {out}");
}

// --- fence inerting ------------------------------------------------------------

#[test]
fn test_fence_info_strings_are_made_inert() {
    let cases = [
        ("", "text"),
        ("rust", "rust,ignore"),
        ("no_run", "no_run,ignore"),
        ("should_panic", "should_panic,ignore"),
        ("compile_fail", "compile_fail,ignore"),
        ("compile_fail,E0277", "compile_fail,E0277,ignore"),
        ("rust,noplayground", "rust,noplayground,ignore"),
        ("edition2018", "edition2018,ignore"),
        ("ignore-wasm32", "rust,ignore"),
        ("rust,ignore-wasm32", "rust,ignore"),
        ("json", "json,ignore"),
        ("proto", "proto,ignore"),
    ];
    for (info, expected) in cases {
        assert_eq!(fence_info(info), expected, "info string: {info:?}");
    }
}

#[test]
fn test_already_ignored_fences_are_untouched() {
    for info in ["rust,ignore", "ignore", "ignore,json"] {
        assert_eq!(fence_info(info), info, "info string: {info}");
    }
}

#[test]
fn test_bare_fence_body_is_not_a_doctest() {
    let out = doc_tokens("Example:\n```\n{\"a\": 1}\n```");
    assert!(out.contains("\" ```text\""), "expected text fence: {out}");
}

#[test]
fn test_tilde_fences_are_inerted_too() {
    let out = doc_tokens("~~~rust\nlet x = 1;\n~~~");
    assert!(out.contains("\" ~~~rust,ignore\""), "opener inerted: {out}");

    let bare = doc_tokens("~~~\n{\"a\": 1}\n~~~");
    assert!(bare.contains("\" ~~~text\""), "bare tilde fence: {bare}");

    let unterminated = doc_tokens("~~~\nx\n```");
    assert!(
        unterminated.ends_with("# [doc = \" ~~~\"]"),
        "closed with its own fence char: {unterminated}"
    );
}

#[test]
fn test_unterminated_fence_does_not_swallow_the_field_tag() {
    let out = render(&doc_lines_with_tag(
        Some("Example:\n```\nfoo"),
        "Field 1: `name`",
        "",
        &StringMap::new(),
    ));
    let fence_close = out.find("# [doc = \" ```\"]").expect("synthetic closer");
    let tag = out.find("Field 1").expect("tag emitted");
    assert!(
        fence_close < tag,
        "the fence must be closed before the tag: {out}"
    );
}

#[test]
fn test_exotic_leading_whitespace_is_not_a_fence() {
    let out = doc_tokens("\u{a0}```\nlet x = 1;\n```");
    assert!(
        out.contains("\" ```text\""),
        "the real opener must still be inerted: {out}"
    );
}

#[test]
fn test_backtick_in_info_string_is_not_a_fence() {
    let out = doc_tokens("```rust```\nx");
    assert!(!out.contains("ignore"), "not treated as a fence: {out}");
}

#[test]
fn test_unterminated_fence_is_closed() {
    let out = doc_tokens("prose\n```\nlet x = 1;");
    assert!(
        out.ends_with("# [doc = \" ```\"]"),
        "expected a synthetic closer: {out}"
    );
}

#[test]
fn test_longer_fence_not_closed_by_shorter_run() {
    let out = doc_tokens("````\n```\ncode\n````");
    assert!(out.contains("\" ````text\""), "opener rewritten: {out}");
    assert_eq!(
        out.matches("# [doc = \" ````\"]").count(),
        1,
        "the 4-tick closer must be the only one: {out}"
    );
}

#[test]
fn test_indented_fence_marker_is_code_not_fence() {
    let out = doc_tokens("    ```\n    x");
    assert!(out.contains("\" ```text\""), "expected text fence: {out}");
    assert!(
        out.contains("\"    ```\""),
        "marker kept indented, as content: {out}"
    );
}

#[test]
fn law_open_tilde_fence_closed_with_same_run() {
    let lines = doc_lines_with_refs("intro\n~~~~ sh\necho hi", "", &StringMap::new());
    assert_eq!(lines.last().map(String::as_str), Some(" ~~~~"));
}

#[test]
fn law_open_backtick_fence_closed_with_same_run() {
    let lines = doc_lines_with_refs("`````\nbody", "", &StringMap::new());
    assert_eq!(lines.last().map(String::as_str), Some(" `````"));
}

#[test]
fn law_code_span_copied_verbatim() {
    let mut tm = StringMap::new();
    tm.insert(".my.pkg.Foo".to_string(), "crate::my::pkg::Foo".to_string());
    let line = "``a `[Foo][my.pkg.Foo]` <b>``";
    assert_eq!(sanitize_line_with_refs(line, "my.pkg", &tm), line);
}

#[test]
fn law_format_comment_drops_empty_parts_in_order() {
    let loc = Location {
        path: vec![4, 0],
        leading_detached_comments: vec![" one \n".to_string(), "\n\n  \n".to_string(), "two".to_string()],
        leading_comments: Some("\n".to_string()),
        trailing_comments: Some(" three\n".to_string()),
        ..Default::default()
    };
    assert_eq!(format_comment(&loc).as_deref(), Some(" one\n\ntwo\n\n three"));
    let empty = Location {
        path: vec![4, 0],
        leading_detached_comments: vec!["  ".to_string()],
        leading_comments: Some("\n\n".to_string()),
        ..Default::default()
    };
    assert_eq!(format_comment(&empty), None);
}

#[test]
fn law_path_map_last_location_wins() {
    let msg = DescriptorProto {
        name: Some("M".to_string()),
        ..Default::default()
    };
    let file = make_file_with_locations(
        "p",
        vec![msg],
        vec![],
        vec![
            make_location(vec![4, 0], Some(" first"), None),
            make_location(vec![4, 0], Some(" second"), None),
            make_location(vec![4, 0], None, None),
        ],
    );
    let map = fqn_comments(&file);
    assert_eq!(map.get("p.M").map(String::as_str), Some(" second"));
}

#[test]
fn law_fqn_keys_only_commented_elements() {
    let inner = DescriptorProto {
        name: Some("Inner".to_string()),
        field: vec![make_field("x"), make_field("y")],
        ..Default::default()
    };
    let outer = DescriptorProto {
        name: Some("Outer".to_string()),
        nested_type: vec![inner],
        ..Default::default()
    };
    let file = make_file_with_locations(
        "pkg",
        vec![outer],
        vec![],
        vec![
            make_location(vec![12], Some(" syntax comment"), None),
            make_location(vec![4, 0, 3, 0, 2, 1], Some(" the y field"), None),
            make_location(vec![4, 0, 3, 0], None, None),
        ],
    );
    let map = fqn_comments(&file);
    assert_eq!(map.len(), 1);
    assert_eq!(map.get("pkg.Outer.Inner.y").map(|s| s.as_str()), Some(" the y field"));
    assert!(!map.contains_key("pkg.Outer.Inner"));
    assert!(!map.contains_key("pkg.Outer"));
}
