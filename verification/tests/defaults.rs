use buffa_codegen::defaults::{
    default_literal, open_enum_bare_default_value, unescape_c_escape_string, BareEnumDefault,
    DefaultLiteral,
};
use buffa_codegen::descriptor::{FieldDescriptorProto, Type};
use buffa_codegen::error::CodeGenError;

#[test]
fn unescape_plain_text() {
    assert_eq!(
        unescape_c_escape_string("hello world").unwrap(),
        b"hello world"
    );
}

#[test]
fn unescape_null() {
    assert_eq!(unescape_c_escape_string(r"\0").unwrap(), b"\0");
}

#[test]
fn unescape_octal() {
    assert_eq!(
        unescape_c_escape_string(r"\012\156").unwrap(),
        &[0o012, 0o156]
    );
}

#[test]
fn unescape_hex() {
    assert_eq!(
        unescape_c_escape_string(r"\x01\x02").unwrap(),
        &[0x01, 0x02]
    );
}

#[test]
fn unescape_all_escapes() {
    assert_eq!(
        unescape_c_escape_string(r#"\0\001\a\b\f\n\r\t\v\\\'\"\xfe"#).unwrap(),
        b"\0\x01\x07\x08\x0C\n\r\t\x0B\\\'\"\xFE"
    );
}

#[test]
fn unescape_incomplete_hex() {
    // `\x` with no digits at all is incomplete.
    assert!(unescape_c_escape_string(r"\x").is_err());
}

#[test]
fn unescape_hex_single_digit() {
    // A single hex digit at the end of input is a complete escape.
    assert_eq!(unescape_c_escape_string(r"\x1").unwrap(), &[0x01]);
}

#[test]
fn unescape_trailing_backslash() {
    assert!(unescape_c_escape_string(r"\").is_err());
}

#[test]
fn unescape_question_mark() {
    assert_eq!(unescape_c_escape_string(r"\?").unwrap(), &[0x3F]);
}

#[test]
fn unescape_uppercase_hex() {
    assert_eq!(unescape_c_escape_string(r"\XAB").unwrap(), &[0xAB]);
}

#[test]
fn unescape_invalid_escape() {
    assert!(unescape_c_escape_string(r"\z").is_err());
}

#[test]
fn unescape_invalid_hex_digits() {
    assert!(unescape_c_escape_string(r"\xGG").is_err());
}

#[test]
fn unescape_empty_input() {
    assert_eq!(unescape_c_escape_string("").unwrap(), &[] as &[u8]);
}

#[test]
fn unescape_hex_overflow_rejected() {
    // \xff = 255; boundary value, must succeed.
    assert_eq!(unescape_c_escape_string(r"\xff").unwrap(), &[0xFF]);
    // \xfff = 4095: all three digits are consumed and the value rejected.
    assert!(unescape_c_escape_string(r"\xfff").is_err());
}

#[test]
fn unescape_hex_greedy_leading_zeros() {
    // The value is range-checked, not the digit count.
    assert_eq!(unescape_c_escape_string(r"\x000000ff").unwrap(), &[0xFF]);
}

#[test]
fn unescape_hex_long_run_no_overflow() {
    // 10 'f's would wrap a u32; the accumulator saturates and is rejected.
    assert!(unescape_c_escape_string(r"\xffffffffff").is_err());
}

#[test]
fn unescape_hex_greedy_stops_at_non_hex_digit() {
    assert_eq!(
        unescape_c_escape_string(r"\x41z").unwrap(),
        &[0x41, b'z'] as &[u8]
    );
}

#[test]
fn unescape_octal_overflow_rejected() {
    // \400 = 256, which exceeds the single-byte range; must be an error.
    assert!(unescape_c_escape_string(r"\400").is_err());
    // \777 = 511; also out of range.
    assert!(unescape_c_escape_string(r"\777").is_err());
    // \377 = 255; boundary value, must still succeed.
    assert_eq!(unescape_c_escape_string(r"\377").unwrap(), &[0xFF]);
}

// ── Error messages ───────────────────────────────────────────────────────────

fn message(s: &str) -> String {
    match unescape_c_escape_string(s) {
        Err(CodeGenError::Other(m)) => m,
        Err(e) => panic!("expected a message, got {e:?}"),
        Ok(v) => panic!("expected an error, got {v:?}"),
    }
}

#[test]
fn unescape_error_messages_name_the_fault() {
    assert_eq!(
        message(r"ab\"),
        r"invalid c-escaped default binary value (ab\): ends with '\'"
    );
    assert_eq!(
        message(r"\777"),
        r"invalid c-escaped default binary value (\777): octal escape \777 out of range (max \377)"
    );
    assert_eq!(
        message(r"\x100"),
        r"invalid c-escaped default binary value (\x100): hex escape \x100 out of range (max \xff)"
    );
    assert_eq!(
        message(r"\xffffffffff"),
        r"invalid c-escaped default binary value (\xffffffffff): hex escape \xffffffff out of range (max \xff)"
    );
    assert_eq!(
        message(r"\x"),
        r"invalid c-escaped default binary value (\x): incomplete hex value"
    );
    assert_eq!(
        message(r"\xg"),
        r"invalid c-escaped default binary value (\xg): invalid hex value"
    );
    assert_eq!(
        message(r"\q"),
        r"invalid c-escaped default binary value (\q): invalid escape"
    );
}

#[test]
fn unescape_non_ascii_passes_utf8_bytes_through() {
    assert_eq!(unescape_c_escape_string("é\\n").unwrap(), &[0xC3, 0xA9, 0x0A]);
}

#[test]
fn unescape_first_fault_wins() {
    // The trailing backslash is never reached: the invalid escape comes first.
    assert!(message(r"\q\").ends_with("invalid escape"));
}

// ── Default literals ─────────────────────────────────────────────────────────

fn field_with_default(ty: Option<Type>, default: Option<&str>) -> FieldDescriptorProto {
    FieldDescriptorProto {
        name: Some("f".to_string()),
        field_type: ty,
        default_value: default.map(|d| d.to_string()),
        ..Default::default()
    }
}

#[test]
fn default_literal_absent_empty_or_implicit_is_none() {
    let f = field_with_default(Some(Type::TYPE_INT32), None);
    assert_eq!(default_literal(&f, true), Ok(None));
    let f = field_with_default(Some(Type::TYPE_INT32), Some(""));
    assert_eq!(default_literal(&f, true), Ok(None));
    let f = field_with_default(Some(Type::TYPE_INT32), Some("5"));
    assert_eq!(default_literal(&f, false), Ok(None));
    let f = field_with_default(Some(Type::TYPE_MESSAGE), Some("5"));
    assert_eq!(default_literal(&f, true), Ok(None));
}

#[test]
fn default_literal_reads_bools_exactly() {
    let f = field_with_default(Some(Type::TYPE_BOOL), Some("true"));
    assert_eq!(default_literal(&f, true), Ok(Some(DefaultLiteral::Bool(true))));
    let f = field_with_default(Some(Type::TYPE_BOOL), Some("false"));
    assert_eq!(default_literal(&f, true), Ok(Some(DefaultLiteral::Bool(false))));
    let f = field_with_default(Some(Type::TYPE_BOOL), Some("True"));
    assert_eq!(
        default_literal(&f, true),
        Err(CodeGenError::Other(
            "field 'f': invalid bool default: 'True'".to_string()
        ))
    );
}

#[test]
fn default_literal_reads_integers_by_type() {
    let f = field_with_default(Some(Type::TYPE_SINT32), Some("-2147483648"));
    assert_eq!(default_literal(&f, true), Ok(Some(DefaultLiteral::I32(i32::MIN))));
    let f = field_with_default(Some(Type::TYPE_INT32), Some("+7"));
    assert_eq!(default_literal(&f, true), Ok(Some(DefaultLiteral::I32(7))));
    let f = field_with_default(Some(Type::TYPE_INT32), Some("2147483648"));
    assert_eq!(
        default_literal(&f, true),
        Err(CodeGenError::Other(
            "field 'f': invalid i32 default: '2147483648'".to_string()
        ))
    );
    let f = field_with_default(Some(Type::TYPE_FIXED32), Some("4294967295"));
    assert_eq!(default_literal(&f, true), Ok(Some(DefaultLiteral::U32(u32::MAX))));
    let f = field_with_default(Some(Type::TYPE_UINT32), Some("-0"));
    assert_eq!(
        default_literal(&f, true),
        Err(CodeGenError::Other(
            "field 'f': invalid u32 default: '-0'".to_string()
        ))
    );
    let f = field_with_default(Some(Type::TYPE_SFIXED64), Some("-9223372036854775808"));
    assert_eq!(default_literal(&f, true), Ok(Some(DefaultLiteral::I64(i64::MIN))));
    let f = field_with_default(Some(Type::TYPE_UINT64), Some("18446744073709551615"));
    assert_eq!(default_literal(&f, true), Ok(Some(DefaultLiteral::U64(u64::MAX))));
    let f = field_with_default(Some(Type::TYPE_INT64), Some(" 1"));
    assert_eq!(
        default_literal(&f, true),
        Err(CodeGenError::Other(
            "field 'f': invalid i64 default: ' 1'".to_string()
        ))
    );
}

#[test]
fn default_literal_unnamed_field_is_reported_as_unknown() {
    let mut f = field_with_default(Some(Type::TYPE_UINT64), Some("x"));
    f.name = None;
    assert_eq!(
        default_literal(&f, true),
        Err(CodeGenError::Other(
            "field '<unknown>': invalid u64 default: 'x'".to_string()
        ))
    );
}

#[test]
fn default_literal_keeps_float_string_and_enum_text() {
    let f = field_with_default(Some(Type::TYPE_FLOAT), Some("-inf"));
    assert_eq!(
        default_literal(&f, true),
        Ok(Some(DefaultLiteral::Float("-inf".to_string(), false)))
    );
    let f = field_with_default(None, Some("1.5"));
    assert_eq!(
        default_literal(&f, true),
        Ok(Some(DefaultLiteral::Float("1.5".to_string(), true)))
    );
    let f = field_with_default(Some(Type::TYPE_STRING), Some("a\\nb"));
    assert_eq!(
        default_literal(&f, true),
        Ok(Some(DefaultLiteral::Text("a\\nb".to_string())))
    );
    let mut f = field_with_default(Some(Type::TYPE_ENUM), Some("BAR"));
    assert_eq!(
        default_literal(&f, true),
        Err(CodeGenError::MissingField("field.type_name".to_string()))
    );
    f.type_ref = Some(".p.E".to_string());
    assert_eq!(
        default_literal(&f, true),
        Ok(Some(DefaultLiteral::EnumValue("BAR".to_string())))
    );
}

#[test]
fn default_literal_decodes_bytes() {
    let f = field_with_default(Some(Type::TYPE_BYTES), Some("a\\001\\x7f"));
    assert_eq!(
        default_literal(&f, true),
        Ok(Some(DefaultLiteral::Bytes(vec![b'a', 1, 0x7f])))
    );
    let f = field_with_default(Some(Type::TYPE_BYTES), Some("\\q"));
    assert!(matches!(default_literal(&f, true), Err(CodeGenError::Other(_))));
}

#[test]
fn law_unescape_tokens_octal_run_stops_after_three_digits() {
    // `\1234` is the octal token `\123` followed by the plain byte `4`.
    assert_eq!(unescape_c_escape_string(r"\1234").unwrap(), &[0o123, b'4']);
}

#[test]
fn law_unescape_tokens_hex_run_is_longest() {
    // The hex token takes every hex digit; leading zeros keep it in range.
    assert_eq!(unescape_c_escape_string(r"\x00041g").unwrap(), &[0x41, b'g']);
    // A hex run whose value passes 255 splits into no tokens.
    assert!(unescape_c_escape_string(r"\x100").is_err());
}

#[test]
fn law_unescape_tokens_no_split_no_bytes() {
    assert!(unescape_c_escape_string(r"ok\q").is_err());
    assert!(unescape_c_escape_string(r"\400").is_err());
}

fn enum_field(default: Option<&str>, enum_name: Option<&str>) -> FieldDescriptorProto {
    FieldDescriptorProto {
        name: Some("e".to_string()),
        field_type: Some(Type::TYPE_ENUM),
        type_ref: enum_name.map(|t| t.to_string()),
        default_value: default.map(|d| d.to_string()),
        ..Default::default()
    }
}

#[test]
fn bare_enum_default_only_for_open_required_enums() {
    let f = enum_field(Some("B"), Some(".p.E"));
    assert!(matches!(open_enum_bare_default_value(&f, false, true, true, Some(1)), Ok(None)));
    assert!(matches!(open_enum_bare_default_value(&f, true, false, true, Some(1)), Ok(None)));
    let g = field_with_default(Some(Type::TYPE_INT32), Some("3"));
    assert!(matches!(open_enum_bare_default_value(&g, true, true, true, Some(1)), Ok(None)));
}

#[test]
fn bare_enum_default_prefers_declared_default() {
    let f = enum_field(Some("B"), Some(".p.E"));
    match open_enum_bare_default_value(&f, true, true, true, Some(1)) {
        Ok(Some(BareEnumDefault::Declared(DefaultLiteral::EnumValue(v)))) => assert_eq!(v, "B"),
        _ => panic!("expected the declared default"),
    }
}

#[test]
fn bare_enum_default_first_value_when_non_zero() {
    let f = enum_field(None, Some(".p.E"));
    assert!(matches!(
        open_enum_bare_default_value(&f, true, true, true, Some(2)),
        Ok(Some(BareEnumDefault::FirstDeclared))
    ));
    assert!(matches!(open_enum_bare_default_value(&f, true, true, true, Some(0)), Ok(None)));
    assert!(matches!(open_enum_bare_default_value(&f, true, true, true, None), Ok(None)));
}

#[test]
fn bare_enum_default_needs_type_name() {
    let f = enum_field(None, None);
    assert!(matches!(
        open_enum_bare_default_value(&f, true, true, true, Some(2)),
        Err(CodeGenError::MissingField(_))
    ));
}

#[test]
fn integer_defaults_read_as_str_parse_does() {
    let lit = |ty, d| default_literal(&field_with_default(Some(ty), Some(d)), true);
    assert!(matches!(lit(Type::TYPE_INT32, "+7"), Ok(Some(DefaultLiteral::I32(7)))));
    assert!(matches!(lit(Type::TYPE_INT32, "-2147483648"), Ok(Some(DefaultLiteral::I32(i32::MIN)))));
    assert!(lit(Type::TYPE_INT32, "2147483648").is_err());
    assert!(matches!(lit(Type::TYPE_UINT64, "18446744073709551615"), Ok(Some(DefaultLiteral::U64(u64::MAX)))));
    assert!(lit(Type::TYPE_UINT64, "18446744073709551616").is_err());
    assert!(lit(Type::TYPE_UINT32, "-1").is_err());
    assert!(lit(Type::TYPE_INT64, "99999999999999999999999999999999999999999").is_err());
    assert!(lit(Type::TYPE_INT64, "-").is_err());
    assert!(lit(Type::TYPE_INT64, "1_0").is_err());
}
