use buffa_codegen::defaults::{BareEnumDefault, DefaultLiteral};
use buffa_codegen::descriptor::{Label, Type};
use buffa_codegen::reflect_fields::{
    owned_reflect_arms, view_reflect_arms, FieldReflectInput, GetArm, PresenceArm,
};

fn field(number: u32, ty: Type) -> FieldReflectInput {
    FieldReflectInput {
        number,
        label: Some(Label::LABEL_OPTIONAL),
        ty,
        supported: true,
        is_map: false,
        map_repr_default: true,
        explicit_presence: false,
        enum_closed: false,
        bare_default: None,
        oneof: None,
    }
}

#[test]
fn direct_fields_then_oneof_members() {
    let mut m = field(3, Type::TYPE_STRING);
    m.oneof = Some(0);
    let mut list = field(2, Type::TYPE_INT32);
    list.label = Some(Label::LABEL_REPEATED);
    let mut unsupported = field(9, Type::TYPE_INT64);
    unsupported.supported = false;
    let fields = vec![field(1, Type::TYPE_BOOL), m, list, unsupported];
    let arms = owned_reflect_arms(&fields, 1);
    assert_eq!(
        arms,
        vec![
            (1, GetArm::Scalar(Type::TYPE_BOOL), PresenceArm::BoolSet),
            (2, GetArm::List, PresenceArm::ListNonEmpty),
            (3, GetArm::OneofMember(0, Type::TYPE_STRING), PresenceArm::OneofActive(0)),
        ]
    );
    assert_eq!(owned_reflect_arms(&fields, 0).len(), 2);
}

#[test]
fn law_required_open_enum_compares_with_declared_default() {
    let mut e = field(4, Type::TYPE_ENUM);
    e.label = Some(Label::LABEL_REQUIRED);
    e.bare_default = Some(BareEnumDefault::Declared(DefaultLiteral::EnumValue("B".to_string())));
    let mut closed = field(5, Type::TYPE_ENUM);
    closed.enum_closed = true;
    let open = field(6, Type::TYPE_ENUM);
    let arms = owned_reflect_arms(&vec![e, closed, open], 0);
    assert_eq!(arms[0], (4, GetArm::Enum, PresenceArm::NotBareDefault));
    assert_eq!(arms[1], (5, GetArm::Enum, PresenceArm::NotTypeDefault));
    assert_eq!(arms[2], (6, GetArm::Enum, PresenceArm::EnumNonZero));
}

#[test]
fn explicit_presence_and_maps() {
    let mut s = field(1, Type::TYPE_STRING);
    s.explicit_presence = true;
    let mut map = field(2, Type::TYPE_MESSAGE);
    map.label = Some(Label::LABEL_REPEATED);
    map.is_map = true;
    map.map_repr_default = false;
    let fields = vec![s, map];
    let owned = owned_reflect_arms(&fields, 0);
    assert_eq!(owned[0], (1, GetArm::OptString, PresenceArm::IsSome));
    assert_eq!(owned[1], (2, GetArm::MapField, PresenceArm::MapStorageNonEmpty));
    let view = view_reflect_arms(&fields, &vec![None, None], 0);
    assert_eq!(view[1], (2, GetArm::MapField, PresenceArm::MapNonEmpty));
}

#[test]
fn law_view_required_scalar_asks_tracking() {
    let mut r = field(7, Type::TYPE_INT32);
    r.label = Some(Label::LABEL_REQUIRED);
    let mut msg = field(8, Type::TYPE_MESSAGE);
    msg.label = Some(Label::LABEL_REQUIRED);
    let fields = vec![r, msg];
    let view = view_reflect_arms(&fields, &vec![Some(3), Some(4)], 0);
    assert_eq!(view[0], (7, GetArm::Scalar(Type::TYPE_INT32), PresenceArm::RequiredSeen(3)));
    assert_eq!(view[1], (8, GetArm::Message, PresenceArm::MessageSet));
    let owned = owned_reflect_arms(&fields, 0);
    assert_eq!(owned[0], (7, GetArm::Scalar(Type::TYPE_INT32), PresenceArm::IntNonZero));
}
