//! The per-field decisions of vtable-mode reflection.
//!
//! A generated `ReflectMessage` impl answers `get` and `has` by matching on
//! the field number. For each field this module decides how the value is
//! read (`GetArm`) and how presence is judged (`PresenceArm`); the caller
//! renders the arms as tokens. Direct fields come first, in declaration
//! order, then the members of each oneof, oneof by oneof.

use vstd::prelude::*;
use crate::defaults::BareEnumDefault;
use crate::descriptor::{Label, Type};

verus! {

/// How `get` reads a field.
#[derive(Clone, Copy, Debug, PartialEq, Eq, Structural)]
pub enum GetArm {
    /// The map itself.
    MapField,
    /// The repeated field itself.
    List,
    /// An `Option<String>`, the empty string when absent.
    OptString,
    /// An `Option<Vec<u8>>`, no bytes when absent.
    OptBytes,
    /// An optional enum, number 0 when absent.
    OptEnum,
    /// An optional scalar of this type, its zero when absent.
    OptScalar(Type),
    /// A bare string.
    Text,
    /// Bare bytes.
    Bytes,
    /// A message field, the default instance when unset.
    Message,
    /// A bare enum, by its number.
    Enum,
    /// A bare scalar of this type.
    Scalar(Type),
    /// A member of the oneof at this index, of this type; the type's
    /// default when another member (or none) is set.
    OneofMember(usize, Type),
}

/// How `has` judges a field present.
#[derive(Clone, Copy, Debug, PartialEq, Eq, Structural)]
pub enum PresenceArm {
    /// The default map representation is not empty.
    MapNonEmpty,
    /// A configured map representation holds an entry.
    MapStorageNonEmpty,
    /// The repeated field is not empty.
    ListNonEmpty,
    /// The `Option` is `Some`.
    IsSome,
    /// The string or bytes are not empty.
    NonEmpty,
    /// The message field is set.
    MessageSet,
    /// The closed enum differs from its type's default.
    NotTypeDefault,
    /// The opened required enum differs from its declared default.
    NotBareDefault,
    /// The open enum's number is not zero.
    EnumNonZero,
    /// The bool is true.
    BoolSet,
    /// The float is not zero.
    FloatNonZero,
    /// The integer is not zero.
    IntNonZero,
    /// The oneof at this index holds this member.
    OneofActive(usize),
    /// The view's required-field tracking saw the field (this bit).
    RequiredSeen(u32),
}

/// What the arm decisions read of one field; the caller resolves it from
/// the descriptor and the field's features.
pub struct FieldReflectInput {
    /// The field number.
    pub number: u32,
    pub label: Option<Label>,
    /// The effective type (a delimited message field reads as a group).
    pub ty: Type,
    /// Whether reflection supports the type at all.
    pub supported: bool,
    /// Whether the field is a map.
    pub is_map: bool,
    /// Whether a map field uses the default map representation.
    pub map_repr_default: bool,
    /// Whether a singular field is stored as an `Option` (explicit presence).
    pub explicit_presence: bool,
    /// Whether an enum field is closed.
    pub enum_closed: bool,
    /// The declared default an opened required enum field keeps, if any.
    pub bare_default: Option<BareEnumDefault>,
    /// The index of the (real) oneof the field belongs to.
    pub oneof: Option<usize>,
}

pub open spec fn is_repeated(f: FieldReflectInput) -> bool {
    f.label == Some(Label::LABEL_REPEATED)
}

/// A direct field gets arms of its own: it is in no oneof and of a
/// supported type.
pub open spec fn direct_field(f: FieldReflectInput) -> bool {
    f.oneof is None && f.supported
}

/// How `get` reads a singular field of type `ty`.
pub open spec fn singular_get(ty: Type, optional: bool) -> GetArm {
    if optional {
        if ty == Type::TYPE_STRING {
            GetArm::OptString
        } else if ty == Type::TYPE_BYTES {
            GetArm::OptBytes
        } else if ty == Type::TYPE_ENUM {
            GetArm::OptEnum
        } else {
            GetArm::OptScalar(ty)
        }
    } else if ty == Type::TYPE_STRING {
        GetArm::Text
    } else if ty == Type::TYPE_BYTES {
        GetArm::Bytes
    } else if ty == Type::TYPE_MESSAGE || ty == Type::TYPE_GROUP {
        GetArm::Message
    } else if ty == Type::TYPE_ENUM {
        GetArm::Enum
    } else {
        GetArm::Scalar(ty)
    }
}

/// The presence of a bare (implicit-presence or required) field: absent
/// is the default value. On a view, a tracked required scalar (`seen`)
/// asks the tracking instead; an owned message compares an opened required
/// enum with its declared default.
pub open spec fn bare_presence(f: FieldReflectInput, view: bool, seen: Option<u32>) -> PresenceArm {
    let ty = f.ty;
    if ty == Type::TYPE_MESSAGE || ty == Type::TYPE_GROUP {
        PresenceArm::MessageSet
    } else if view && seen is Some {
        PresenceArm::RequiredSeen(seen->0)
    } else if ty == Type::TYPE_STRING || ty == Type::TYPE_BYTES {
        PresenceArm::NonEmpty
    } else if ty == Type::TYPE_ENUM {
        if f.enum_closed {
            PresenceArm::NotTypeDefault
        } else if !view && f.bare_default is Some {
            PresenceArm::NotBareDefault
        } else {
            PresenceArm::EnumNonZero
        }
    } else if ty == Type::TYPE_BOOL {
        PresenceArm::BoolSet
    } else if ty == Type::TYPE_FLOAT || ty == Type::TYPE_DOUBLE {
        PresenceArm::FloatNonZero
    } else {
        PresenceArm::IntNonZero
    }
}

/// The arms of a direct field, on an owned message (`view` false) or a
/// view.
pub open spec fn direct_arm(f: FieldReflectInput, view: bool, seen: Option<u32>) -> (GetArm, PresenceArm) {
    if is_repeated(f) && f.is_map {
        (GetArm::MapField, if view || f.map_repr_default { PresenceArm::MapNonEmpty } else { PresenceArm::MapStorageNonEmpty })
    } else if is_repeated(f) {
        (GetArm::List, PresenceArm::ListNonEmpty)
    } else if f.explicit_presence {
        (singular_get(f.ty, true), PresenceArm::IsSome)
    } else {
        (singular_get(f.ty, false), bare_presence(f, view, seen))
    }
}

/// The tracking bit of field `i`, if it has one.
pub open spec fn seen_at(seen: Seq<Option<u32>>, i: int) -> Option<u32> {
    if 0 <= i < seen.len() {
        seen[i]
    } else {
        None
    }
}

/// The arms of the direct fields among the first `n`, in order.
pub open spec fn direct_arms(fs: Seq<FieldReflectInput>, seen: Seq<Option<u32>>, view: bool, n: int) -> Seq<(u32, GetArm, PresenceArm)>
    decreases n,
{
    if n <= 0 || n > fs.len() {
        seq![]
    } else if direct_field(fs[n - 1]) {
        let (g, p) = direct_arm(fs[n - 1], view, seen_at(seen, n - 1));
        direct_arms(fs, seen, view, n - 1).push((fs[n - 1].number, g, p))
    } else {
        direct_arms(fs, seen, view, n - 1)
    }
}

/// The arms of the members of oneof `idx` among the first `n` fields.
pub open spec fn member_arms(fs: Seq<FieldReflectInput>, idx: int, n: int) -> Seq<(u32, GetArm, PresenceArm)>
    decreases n,
{
    if n <= 0 || n > fs.len() {
        seq![]
    } else if fs[n - 1].oneof == Some(idx as usize) {
        member_arms(fs, idx, n - 1).push((fs[n - 1].number, GetArm::OneofMember(idx as usize, fs[n - 1].ty), PresenceArm::OneofActive(idx as usize)))
    } else {
        member_arms(fs, idx, n - 1)
    }
}

/// The arms of the members of the first `k` oneofs, oneof by oneof.
pub open spec fn oneof_arms(fs: Seq<FieldReflectInput>, k: int) -> Seq<(u32, GetArm, PresenceArm)>
    decreases k,
{
    if k <= 0 {
        seq![]
    } else {
        oneof_arms(fs, k - 1) + member_arms(fs, k - 1, fs.len() as int)
    }
}

/// The `get`/`has` arms of an owned message with `oneof_count` oneofs.
pub open spec fn owned_arms_spec(fs: Seq<FieldReflectInput>, oneof_count: int) -> Seq<(u32, GetArm, PresenceArm)> {
    direct_arms(fs, seq![], false, fs.len() as int) + oneof_arms(fs, oneof_count)
}

/// The `get`/`has` arms of a view, `seen` giving the tracking bit of each
/// tracked required field.
pub open spec fn view_arms_spec(fs: Seq<FieldReflectInput>, seen: Seq<Option<u32>>, oneof_count: int) -> Seq<(u32, GetArm, PresenceArm)> {
    direct_arms(fs, seen, true, fs.len() as int) + oneof_arms(fs, oneof_count)
}

fn singular_get_exec(ty: Type, optional: bool) -> (r: GetArm)
    ensures
        r == singular_get(ty, optional),
{
    if optional {
        if ty == Type::TYPE_STRING {
            GetArm::OptString
        } else if ty == Type::TYPE_BYTES {
            GetArm::OptBytes
        } else if ty == Type::TYPE_ENUM {
            GetArm::OptEnum
        } else {
            GetArm::OptScalar(ty)
        }
    } else if ty == Type::TYPE_STRING {
        GetArm::Text
    } else if ty == Type::TYPE_BYTES {
        GetArm::Bytes
    } else if ty == Type::TYPE_MESSAGE || ty == Type::TYPE_GROUP {
        GetArm::Message
    } else if ty == Type::TYPE_ENUM {
        GetArm::Enum
    } else {
        GetArm::Scalar(ty)
    }
}

fn bare_presence_exec(f: &FieldReflectInput, view: bool, seen: Option<u32>) -> (r: PresenceArm)
    ensures
        r == bare_presence(*f, view, seen),
{
    let ty = f.ty;
    if ty == Type::TYPE_MESSAGE || ty == Type::TYPE_GROUP {
        PresenceArm::MessageSet
    } else if view && seen.is_some() {
        PresenceArm::RequiredSeen(seen.unwrap())
    } else if ty == Type::TYPE_STRING || ty == Type::TYPE_BYTES {
        PresenceArm::NonEmpty
    } else if ty == Type::TYPE_ENUM {
        if f.enum_closed {
            PresenceArm::NotTypeDefault
        } else if !view && f.bare_default.is_some() {
            PresenceArm::NotBareDefault
        } else {
            PresenceArm::EnumNonZero
        }
    } else if ty == Type::TYPE_BOOL {
        PresenceArm::BoolSet
    } else if ty == Type::TYPE_FLOAT || ty == Type::TYPE_DOUBLE {
        PresenceArm::FloatNonZero
    } else {
        PresenceArm::IntNonZero
    }
}

fn direct_arm_exec(f: &FieldReflectInput, view: bool, seen: Option<u32>) -> (r: (GetArm, PresenceArm))
    ensures
        r == direct_arm(*f, view, seen),
{
    let repeated = match f.label {
        Some(Label::LABEL_REPEATED) => true,
        _ => false,
    };
    if repeated && f.is_map {
        (GetArm::MapField, if view || f.map_repr_default { PresenceArm::MapNonEmpty } else { PresenceArm::MapStorageNonEmpty })
    } else if repeated {
        (GetArm::List, PresenceArm::ListNonEmpty)
    } else if f.explicit_presence {
        (singular_get_exec(f.ty, true), PresenceArm::IsSome)
    } else {
        (singular_get_exec(f.ty, false), bare_presence_exec(f, view, seen))
    }
}

fn arms(fields: &Vec<FieldReflectInput>, seen: &Vec<Option<u32>>, view: bool, oneof_count: usize) -> (r: Vec<(u32, GetArm, PresenceArm)>)
    ensures
        r@ == direct_arms(fields@, seen@, view, fields@.len() as int) + oneof_arms(fields@, oneof_count as int),
{
    let mut out: Vec<(u32, GetArm, PresenceArm)> = Vec::new();
    let mut i: usize = 0;
    while i < fields.len()
        invariant
            i <= fields@.len(),
            out@ == direct_arms(fields@, seen@, view, i as int),
        decreases fields@.len() - i,
    {
        let f = &fields[i];
        if f.oneof.is_none() && f.supported {
            let s: Option<u32> = if i < seen.len() { seen[i] } else { None };
            let (g, p) = direct_arm_exec(f, view, s);
            out.push((f.number, g, p));
        }
        i = i + 1;
    }
    let ghost direct = out@;
    let mut k: usize = 0;
    while k < oneof_count
        invariant
            k <= oneof_count,
            i == fields@.len(),
            out@ == direct + oneof_arms(fields@, k as int),
        decreases oneof_count - k,
    {
        let ghost before = out@;
        let mut j: usize = 0;
        while j < fields.len()
            invariant
                j <= fields@.len(),
                k < oneof_count,
                out@ == before + member_arms(fields@, k as int, j as int),
            decreases fields@.len() - j,
        {
            let f = &fields[j];
            if f.oneof == Some(k) {
                out.push((f.number, GetArm::OneofMember(k, f.ty), PresenceArm::OneofActive(k)));
            }
            proof {
                assert(before + member_arms(fields@, k as int, j + 1) =~= out@);
            }
            j = j + 1;
        }
        proof {
            assert(out@ =~= direct + oneof_arms(fields@, k + 1));
        }
        k = k + 1;
    }
    out
}

/// The `get`/`has` arms of an owned message's `ReflectMessage` impl:
/// direct fields in order, then the members of each of the first
/// `oneof_count` oneofs.
pub fn owned_reflect_arms(fields: &Vec<FieldReflectInput>, oneof_count: usize) -> (r: Vec<(u32, GetArm, PresenceArm)>)
    ensures
        r@ == owned_arms_spec(fields@, oneof_count as int),
{
    let none: Vec<Option<u32>> = Vec::new();
    arms(fields, &none, false, oneof_count)
}

/// The `get`/`has` arms of a view's `ReflectMessage` impl; `required_bits`
/// gives, field by field, the tracking bit of a required scalar the view
/// tracks, so `has` agrees with the view's own accessors.
pub fn view_reflect_arms(fields: &Vec<FieldReflectInput>, required_bits: &Vec<Option<u32>>, oneof_count: usize) -> (r: Vec<(u32, GetArm, PresenceArm)>)
    ensures
        r@ == view_arms_spec(fields@, required_bits@, oneof_count as int),
{
    arms(fields, required_bits, true, oneof_count)
}

/// The arms field `i` gets, if any: its own arms as a direct field, or the
/// member arms of a oneof among the first `oneof_count`.
pub open spec fn field_arm(fs: Seq<FieldReflectInput>, seen: Seq<Option<u32>>, view: bool, oneof_count: int, i: int) -> Option<(u32, GetArm, PresenceArm)> {
    let f = fs[i];
    if direct_field(f) {
        let (g, p) = direct_arm(f, view, seen_at(seen, i));
        Some((f.number, g, p))
    } else if f.oneof is Some && (f.oneof->0 as int) < oneof_count {
        Some((f.number, GetArm::OneofMember(f.oneof->0, f.ty), PresenceArm::OneofActive(f.oneof->0)))
    } else {
        None
    }
}

/// `x` is the arms of some field.
pub open spec fn is_field_arm(fs: Seq<FieldReflectInput>, seen: Seq<Option<u32>>, view: bool, count: int, x: (u32, GetArm, PresenceArm)) -> bool {
    exists|i: int| 0 <= i < fs.len() && #[trigger] field_arm(fs, seen, view, count, i) == Some(x)
}

proof fn lemma_direct_arms(fs: Seq<FieldReflectInput>, seen: Seq<Option<u32>>, view: bool, count: int, n: int)
    requires
        0 <= n <= fs.len(),
    ensures
        forall|i: int| 0 <= i < n && direct_field(fs[i]) ==> direct_arms(fs, seen, view, n).contains(
            #[trigger] field_arm(fs, seen, view, count, i)->0),
        forall|k: int| 0 <= k < direct_arms(fs, seen, view, n).len() ==> is_field_arm(fs, seen, view, count, #[trigger] direct_arms(fs, seen, view, n)[k]),
    decreases n,
{
    if n > 0 {
        lemma_direct_arms(fs, seen, view, count, n - 1);
        let prev = direct_arms(fs, seen, view, n - 1);
        let cur = direct_arms(fs, seen, view, n);
        if direct_field(fs[n - 1]) {
            let x = field_arm(fs, seen, view, count, n - 1)->0;
            assert(cur == prev.push(x));
            assert forall|i: int| 0 <= i < n && direct_field(fs[i]) implies cur.contains(#[trigger] field_arm(fs, seen, view, count, i)->0) by {
                if i < n - 1 {
                    let y = field_arm(fs, seen, view, count, i)->0;
                    assert(prev.contains(y));
                    let k = choose|k: int| 0 <= k < prev.len() && prev[k] == y;
                    assert(cur[k] == prev[k]);
                } else {
                    assert(cur[prev.len() as int] == x);
                }
            }
            assert forall|k: int| 0 <= k < cur.len() implies is_field_arm(fs, seen, view, count, #[trigger] cur[k]) by {
                if k < prev.len() {
                    assert(cur[k] == prev[k]);
                    assert(is_field_arm(fs, seen, view, count, prev[k]));
                } else {
                    assert(field_arm(fs, seen, view, count, n - 1) == Some(cur[k]));
                }
            }
        } else {
            assert(cur == prev);
        }
    }
}

proof fn lemma_member_arms(fs: Seq<FieldReflectInput>, seen: Seq<Option<u32>>, view: bool, count: int, idx: int, n: int)
    requires
        0 <= n <= fs.len(),
        0 <= idx < count,
        idx <= usize::MAX,
    ensures
        forall|i: int| 0 <= i < n && fs[i].oneof == Some(idx as usize) ==> member_arms(fs, idx, n).contains(
            #[trigger] field_arm(fs, seen, view, count, i)->0),
        forall|k: int| 0 <= k < member_arms(fs, idx, n).len() ==> is_field_arm(fs, seen, view, count, #[trigger] member_arms(fs, idx, n)[k]),
    decreases n,
{
    if n > 0 {
        lemma_member_arms(fs, seen, view, count, idx, n - 1);
        let prev = member_arms(fs, idx, n - 1);
        let cur = member_arms(fs, idx, n);
        if fs[n - 1].oneof == Some(idx as usize) {
            let x = field_arm(fs, seen, view, count, n - 1)->0;
            assert(cur == prev.push(x));
            assert forall|i: int| 0 <= i < n && fs[i].oneof == Some(idx as usize) implies cur.contains(#[trigger] field_arm(fs, seen, view, count, i)->0) by {
                if i < n - 1 {
                    let y = field_arm(fs, seen, view, count, i)->0;
                    assert(prev.contains(y));
                    let k = choose|k: int| 0 <= k < prev.len() && prev[k] == y;
                    assert(cur[k] == prev[k]);
                } else {
                    assert(cur[prev.len() as int] == x);
                }
            }
            assert forall|k: int| 0 <= k < cur.len() implies is_field_arm(fs, seen, view, count, #[trigger] cur[k]) by {
                if k < prev.len() {
                    assert(cur[k] == prev[k]);
                    assert(is_field_arm(fs, seen, view, count, prev[k]));
                } else {
                    assert(field_arm(fs, seen, view, count, n - 1) == Some(cur[k]));
                }
            }
        } else {
            assert(cur == prev);
        }
    }
}

proof fn lemma_oneof_arms(fs: Seq<FieldReflectInput>, seen: Seq<Option<u32>>, view: bool, count: int, k: int)
    requires
        0 <= k <= count,
        count <= usize::MAX + 1,
    ensures
        forall|i: int| 0 <= i < fs.len() && fs[i].oneof is Some && (fs[i].oneof->0 as int) < k ==> oneof_arms(fs, k).contains(
            #[trigger] field_arm(fs, seen, view, count, i)->0),
        forall|j: int| 0 <= j < oneof_arms(fs, k).len() ==> is_field_arm(fs, seen, view, count, #[trigger] oneof_arms(fs, k)[j]),
    decreases k,
{
    if k > 0 {
        lemma_oneof_arms(fs, seen, view, count, k - 1);
        lemma_member_arms(fs, seen, view, count, k - 1, fs.len() as int);
        let prev = oneof_arms(fs, k - 1);
        let mem = member_arms(fs, k - 1, fs.len() as int);
        let cur = oneof_arms(fs, k);
        assert(cur == prev + mem);
        assert forall|i: int| 0 <= i < fs.len() && fs[i].oneof is Some && (fs[i].oneof->0 as int) < k implies cur.contains(
            #[trigger] field_arm(fs, seen, view, count, i)->0) by {
            let y = field_arm(fs, seen, view, count, i)->0;
            if (fs[i].oneof->0 as int) < k - 1 {
                assert(prev.contains(y));
                let m = choose|m: int| 0 <= m < prev.len() && prev[m] == y;
                assert(cur[m] == prev[m]);
            } else {
                assert(fs[i].oneof == Some((k - 1) as usize));
                assert(mem.contains(y));
                let m = choose|m: int| 0 <= m < mem.len() && mem[m] == y;
                assert(cur[prev.len() + m] == mem[m]);
            }
        }
        assert forall|j: int| 0 <= j < cur.len() implies is_field_arm(fs, seen, view, count, #[trigger] cur[j]) by {
            if j < prev.len() {
                assert(cur[j] == prev[j]);
                assert(is_field_arm(fs, seen, view, count, prev[j]));
            } else {
                assert(cur[j] == mem[j - prev.len()]);
                assert(is_field_arm(fs, seen, view, count, mem[j - prev.len()]));
            }
        }
    }
}

proof fn lemma_all_arms(fs: Seq<FieldReflectInput>, seen: Seq<Option<u32>>, view: bool, count: int)
    requires
        0 <= count <= usize::MAX + 1,
    ensures
        ({
            let r = direct_arms(fs, seen, view, fs.len() as int) + oneof_arms(fs, count);
            &&& forall|i: int| 0 <= i < fs.len() && #[trigger] field_arm(fs, seen, view, count, i) is Some
                ==> r.contains(field_arm(fs, seen, view, count, i)->0)
            &&& forall|k: int| 0 <= k < r.len() ==> is_field_arm(fs, seen, view, count, #[trigger] r[k])
        }),
{
    let d = direct_arms(fs, seen, view, fs.len() as int);
    let o = oneof_arms(fs, count);
    let r = d + o;
    lemma_direct_arms(fs, seen, view, count, fs.len() as int);
    lemma_oneof_arms(fs, seen, view, count, count);
    assert forall|i: int| 0 <= i < fs.len() && #[trigger] field_arm(fs, seen, view, count, i) is Some
        implies r.contains(field_arm(fs, seen, view, count, i)->0) by {
        let y = field_arm(fs, seen, view, count, i)->0;
        if direct_field(fs[i]) {
            assert(d.contains(y));
            let m = choose|m: int| 0 <= m < d.len() && d[m] == y;
            assert(r[m] == d[m]);
        } else {
            assert(o.contains(y));
            let m = choose|m: int| 0 <= m < o.len() && o[m] == y;
            assert(r[d.len() + m] == o[m]);
        }
    }
    assert forall|k: int| 0 <= k < r.len() implies is_field_arm(fs, seen, view, count, #[trigger] r[k]) by {
        if k < d.len() {
            assert(r[k] == d[k]);
            assert(is_field_arm(fs, seen, view, count, d[k]));
        } else {
            assert(r[k] == o[k - d.len()]);
            assert(is_field_arm(fs, seen, view, count, o[k - d.len()]));
        }
    }
}

/// Every field reflection reaches gets its arms, and nothing else gets
/// arms: each direct field (no oneof, supported type) and each member of
/// one of the first `oneof_count` oneofs has exactly the arms
/// [`field_arm`] gives it in the `get`/`has` match of the owned message and
/// of the view, and every arm of either match is some field's.
pub proof fn law_reflect_arms_cover(fs: Seq<FieldReflectInput>, seen: Seq<Option<u32>>, oneof_count: usize)
    ensures
        ({
            let o = owned_arms_spec(fs, oneof_count as int);
            &&& forall|i: int| 0 <= i < fs.len() && #[trigger] field_arm(fs, seq![], false, oneof_count as int, i) is Some
                ==> o.contains(field_arm(fs, seq![], false, oneof_count as int, i)->0)
            &&& forall|k: int| 0 <= k < o.len() ==> is_field_arm(fs, seq![], false, oneof_count as int, #[trigger] o[k])
        }),
        ({
            let v = view_arms_spec(fs, seen, oneof_count as int);
            &&& forall|i: int| 0 <= i < fs.len() && #[trigger] field_arm(fs, seen, true, oneof_count as int, i) is Some
                ==> v.contains(field_arm(fs, seen, true, oneof_count as int, i)->0)
            &&& forall|k: int| 0 <= k < v.len() ==> is_field_arm(fs, seen, true, oneof_count as int, #[trigger] v[k])
        }),
{
    lemma_all_arms(fs, seq![], false, oneof_count as int);
    lemma_all_arms(fs, seen, true, oneof_count as int);
}

/// An opened enum field that is required and keeps a declared default is
/// present on an owned message exactly when it differs from that default,
/// not when its number is non-zero; a closed enum compares with its type's
/// default.
pub proof fn law_required_open_enum_presence(fs: Seq<FieldReflectInput>, oneof_count: usize, i: int)
    requires
        0 <= i < fs.len(),
        direct_field(fs[i]),
        !is_repeated(fs[i]),
        !fs[i].explicit_presence,
        fs[i].ty == Type::TYPE_ENUM,
    ensures
        !fs[i].enum_closed && fs[i].bare_default is Some ==> owned_arms_spec(fs, oneof_count as int).contains(
            (fs[i].number, GetArm::Enum, PresenceArm::NotBareDefault)),
        fs[i].enum_closed ==> owned_arms_spec(fs, oneof_count as int).contains(
            (fs[i].number, GetArm::Enum, PresenceArm::NotTypeDefault)),
{
    lemma_all_arms(fs, seq![], false, oneof_count as int);
    assert(field_arm(fs, seq![], false, oneof_count as int, i) is Some);
}

/// A view's `has` for a required scalar it tracks asks the tracking bit,
/// so reflection agrees with the view's own `has_` accessor even for a
/// field encoded with its default value.
pub proof fn law_view_required_tracked(fs: Seq<FieldReflectInput>, seen: Seq<Option<u32>>, oneof_count: usize, i: int)
    requires
        0 <= i < fs.len(),
        direct_field(fs[i]),
        !is_repeated(fs[i]),
        !fs[i].explicit_presence,
        fs[i].ty != Type::TYPE_MESSAGE && fs[i].ty != Type::TYPE_GROUP,
        seen_at(seen, i) is Some,
    ensures
        view_arms_spec(fs, seen, oneof_count as int).contains(
            (fs[i].number, singular_get(fs[i].ty, false), PresenceArm::RequiredSeen(seen_at(seen, i)->0))),
{
    lemma_all_arms(fs, seen, true, oneof_count as int);
    assert(field_arm(fs, seen, true, oneof_count as int, i) is Some);
}

/// The integer field types.
pub open spec fn is_int_type(ty: Type) -> bool {
    ty == Type::TYPE_INT32 || ty == Type::TYPE_SINT32 || ty == Type::TYPE_SFIXED32 || ty == Type::TYPE_UINT32
        || ty == Type::TYPE_FIXED32 || ty == Type::TYPE_INT64 || ty == Type::TYPE_SINT64 || ty == Type::TYPE_SFIXED64
        || ty == Type::TYPE_UINT64 || ty == Type::TYPE_FIXED64
}

/// A bare (implicit-presence) singular field is read as itself and is
/// present when it differs from its type's zero, judged as that type: a
/// float or double against `0.0`, an integer against `0`, a bool by being
/// true, a string or bytes by not being empty, a message by being set. This
/// holds on owned messages and on views, for a field the view does not
/// track.
pub proof fn law_bare_scalar_presence(fs: Seq<FieldReflectInput>, seen: Seq<Option<u32>>, oneof_count: usize, i: int)
    requires
        0 <= i < fs.len(),
        direct_field(fs[i]),
        !is_repeated(fs[i]),
        !fs[i].explicit_presence,
        seen_at(seen, i) is None,
    ensures
        ({
            let f = fs[i];
            let o = owned_arms_spec(fs, oneof_count as int);
            let v = view_arms_spec(fs, seen, oneof_count as int);
            &&& (f.ty == Type::TYPE_FLOAT || f.ty == Type::TYPE_DOUBLE) ==> o.contains(
                (f.number, GetArm::Scalar(f.ty), PresenceArm::FloatNonZero)) && v.contains(
                (f.number, GetArm::Scalar(f.ty), PresenceArm::FloatNonZero))
            &&& is_int_type(f.ty) ==> o.contains((f.number, GetArm::Scalar(f.ty), PresenceArm::IntNonZero))
                && v.contains((f.number, GetArm::Scalar(f.ty), PresenceArm::IntNonZero))
            &&& f.ty == Type::TYPE_BOOL ==> o.contains((f.number, GetArm::Scalar(f.ty), PresenceArm::BoolSet))
                && v.contains((f.number, GetArm::Scalar(f.ty), PresenceArm::BoolSet))
            &&& f.ty == Type::TYPE_STRING ==> o.contains((f.number, GetArm::Text, PresenceArm::NonEmpty))
                && v.contains((f.number, GetArm::Text, PresenceArm::NonEmpty))
            &&& f.ty == Type::TYPE_BYTES ==> o.contains((f.number, GetArm::Bytes, PresenceArm::NonEmpty))
                && v.contains((f.number, GetArm::Bytes, PresenceArm::NonEmpty))
            &&& (f.ty == Type::TYPE_MESSAGE || f.ty == Type::TYPE_GROUP) ==> o.contains(
                (f.number, GetArm::Message, PresenceArm::MessageSet)) && v.contains(
                (f.number, GetArm::Message, PresenceArm::MessageSet))
        }),
{
    lemma_all_arms(fs, seq![], false, oneof_count as int);
    lemma_all_arms(fs, seen, true, oneof_count as int);
    assert(field_arm(fs, seq![], false, oneof_count as int, i) is Some);
    assert(field_arm(fs, seen, true, oneof_count as int, i) is Some);
}

/// A field with explicit presence is stored as an `Option`: it is present
/// exactly when the `Option` is `Some`, whatever its type, and reads its
/// type's default when absent.
pub proof fn law_explicit_presence(fs: Seq<FieldReflectInput>, seen: Seq<Option<u32>>, oneof_count: usize, i: int)
    requires
        0 <= i < fs.len(),
        direct_field(fs[i]),
        !is_repeated(fs[i]),
        fs[i].explicit_presence,
    ensures
        ({
            let f = fs[i];
            let g = if f.ty == Type::TYPE_STRING {
                GetArm::OptString
            } else if f.ty == Type::TYPE_BYTES {
                GetArm::OptBytes
            } else if f.ty == Type::TYPE_ENUM {
                GetArm::OptEnum
            } else {
                GetArm::OptScalar(f.ty)
            };
            &&& owned_arms_spec(fs, oneof_count as int).contains((f.number, g, PresenceArm::IsSome))
            &&& view_arms_spec(fs, seen, oneof_count as int).contains((f.number, g, PresenceArm::IsSome))
        }),
{
    lemma_all_arms(fs, seq![], false, oneof_count as int);
    lemma_all_arms(fs, seen, true, oneof_count as int);
    assert(field_arm(fs, seq![], false, oneof_count as int, i) is Some);
    assert(field_arm(fs, seen, true, oneof_count as int, i) is Some);
}

} // verus!
