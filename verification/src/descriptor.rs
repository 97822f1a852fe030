//! The parts of `google/protobuf/descriptor.proto` that comment extraction
//! and feature overrides read and write, with their mathematical models.

use vstd::prelude::*;

verus! {

/// `FieldDescriptorProto.Type`.
#[allow(non_camel_case_types)]
#[derive(Clone, Copy, Debug, PartialEq, Eq, Structural, Default)]
pub enum Type {
    #[default]
    TYPE_DOUBLE,
    TYPE_FLOAT,
    TYPE_INT64,
    TYPE_UINT64,
    TYPE_INT32,
    TYPE_FIXED64,
    TYPE_FIXED32,
    TYPE_BOOL,
    TYPE_STRING,
    TYPE_GROUP,
    TYPE_MESSAGE,
    TYPE_BYTES,
    TYPE_UINT32,
    TYPE_ENUM,
    TYPE_SFIXED32,
    TYPE_SFIXED64,
    TYPE_SINT32,
    TYPE_SINT64,
}

/// `FieldDescriptorProto.Label`.
#[allow(non_camel_case_types)]
#[derive(Clone, Copy, Debug, PartialEq, Eq, Structural, Default)]
pub enum Label {
    #[default]
    LABEL_OPTIONAL,
    LABEL_REPEATED,
    LABEL_REQUIRED,
}

/// `FeatureSet.EnumType`.
#[allow(non_camel_case_types)]
#[derive(Clone, Copy, Debug, PartialEq, Eq, Structural, Default)]
pub enum EnumType {
    #[default]
    ENUM_TYPE_UNKNOWN,
    OPEN,
    CLOSED,
}

/// `FeatureSet`, reduced to the `enum_type` feature.
#[derive(Clone, Copy, Debug, PartialEq, Eq, Structural, Default)]
pub struct FeatureSet {
    pub enum_type: Option<EnumType>,
}

/// `FieldOptions`, reduced to its features.
#[derive(Clone, Copy, Debug, PartialEq, Eq, Structural, Default)]
pub struct FieldOptions {
    pub features: Option<FeatureSet>,
}

/// `EnumOptions`, reduced to its features.
#[derive(Clone, Copy, Debug, PartialEq, Eq, Structural, Default)]
pub struct EnumOptions {
    pub features: Option<FeatureSet>,
}

/// `MessageOptions`, reduced to `map_entry`.
#[derive(Clone, Copy, Debug, PartialEq, Eq, Structural, Default)]
pub struct MessageOptions {
    pub map_entry: Option<bool>,
}

/// `EnumValueDescriptorProto`.
#[derive(Debug, Default)]
pub struct EnumValueDescriptorProto {
    pub name: Option<String>,
    pub number: Option<i32>,
}

/// `EnumDescriptorProto`.
#[derive(Debug, Default)]
pub struct EnumDescriptorProto {
    pub name: Option<String>,
    pub value: Vec<EnumValueDescriptorProto>,
    pub options: Option<EnumOptions>,
}

/// `OneofDescriptorProto`.
#[derive(Debug, Default)]
pub struct OneofDescriptorProto {
    pub name: Option<String>,
}

/// `FieldDescriptorProto`.
#[derive(Debug, Default)]
pub struct FieldDescriptorProto {
    pub name: Option<String>,
    pub number: Option<i32>,
    pub label: Option<Label>,
    pub field_type: Option<Type>,
    pub type_ref: Option<String>,
    /// The declared default, as written in the `.proto` source.
    pub default_value: Option<String>,
    pub options: Option<FieldOptions>,
}

/// `DescriptorProto` (a message type).
#[derive(Debug, Default)]
pub struct DescriptorProto {
    pub name: Option<String>,
    pub field: Vec<FieldDescriptorProto>,
    pub nested_type: Vec<DescriptorProto>,
    pub enum_type: Vec<EnumDescriptorProto>,
    pub oneof_decl: Vec<OneofDescriptorProto>,
    pub options: Option<MessageOptions>,
}

/// `SourceCodeInfo.Location`.
#[derive(Debug, Default)]
pub struct Location {
    pub path: Vec<i32>,
    pub leading_comments: Option<String>,
    pub trailing_comments: Option<String>,
    pub leading_detached_comments: Vec<String>,
}

/// `SourceCodeInfo`.
#[derive(Debug, Default)]
pub struct SourceCodeInfo {
    pub location: Vec<Location>,
}

/// `FileDescriptorProto`.
#[derive(Debug, Default)]
pub struct FileDescriptorProto {
    pub name: Option<String>,
    pub package: Option<String>,
    pub syntax: Option<String>,
    pub message_type: Vec<DescriptorProto>,
    pub enum_type: Vec<EnumDescriptorProto>,
    pub source_code_info: Option<SourceCodeInfo>,
}

// ── Models ──────────────────────────────────────────────────────────────────

pub open spec fn opt_text(o: Option<String>) -> Option<Seq<char>> {
    match o {
        Some(s) => Some(s@),
        None => None,
    }
}

pub struct EnumValueModel {
    pub name: Option<Seq<char>>,
    pub number: Option<i32>,
}

pub struct EnumModel {
    pub name: Option<Seq<char>>,
    pub values: Seq<EnumValueModel>,
    pub options: Option<EnumOptions>,
}

pub struct FieldModel {
    pub name: Option<Seq<char>>,
    pub number: Option<i32>,
    pub label: Option<Label>,
    pub ty: Option<Type>,
    pub type_ref: Option<Seq<char>>,
    pub default_value: Option<Seq<char>>,
    pub options: Option<FieldOptions>,
}

pub struct MessageModel {
    pub name: Option<Seq<char>>,
    pub fields: Seq<FieldModel>,
    pub nested: Seq<MessageModel>,
    pub enums: Seq<EnumModel>,
    pub oneofs: Seq<Option<Seq<char>>>,
    pub options: Option<MessageOptions>,
}

pub struct LocationModel {
    pub path: Seq<i32>,
    pub leading: Option<Seq<char>>,
    pub trailing: Option<Seq<char>>,
    pub detached: Seq<Seq<char>>,
}

pub struct FileModel {
    pub name: Option<Seq<char>>,
    pub package: Option<Seq<char>>,
    pub syntax: Option<Seq<char>>,
    pub messages: Seq<MessageModel>,
    pub enums: Seq<EnumModel>,
    pub locations: Option<Seq<LocationModel>>,
}

impl EnumValueDescriptorProto {
    pub open spec fn model(&self) -> EnumValueModel {
        EnumValueModel { name: opt_text(self.name), number: self.number }
    }
}

impl EnumDescriptorProto {
    pub open spec fn model(&self) -> EnumModel {
        EnumModel {
            name: opt_text(self.name),
            values: Seq::new(self.value@.len(), |i: int| self.value@[i].model()),
            options: self.options,
        }
    }
}

impl FieldDescriptorProto {
    pub open spec fn model(&self) -> FieldModel {
        FieldModel {
            name: opt_text(self.name),
            number: self.number,
            label: self.label,
            ty: self.field_type,
            type_ref: opt_text(self.type_ref),
            default_value: opt_text(self.default_value),
            options: self.options,
        }
    }
}

impl DescriptorProto {
    pub open spec fn model(&self) -> MessageModel
        decreases self,
    {
        MessageModel {
            name: opt_text(self.name),
            fields: Seq::new(self.field@.len(), |i: int| self.field@[i].model()),
            nested: Seq::new(
                self.nested_type@.len(),
                |i: int|
                    if 0 <= i < self.nested_type@.len() {
                        self.nested_type@[i].model()
                    } else {
                        arbitrary()
                    },
            ),
            enums: Seq::new(self.enum_type@.len(), |i: int| self.enum_type@[i].model()),
            oneofs: Seq::new(self.oneof_decl@.len(), |i: int| opt_text(self.oneof_decl@[i].name)),
            options: self.options,
        }
    }
}

impl Location {
    pub open spec fn model(&self) -> LocationModel {
        LocationModel {
            path: self.path@,
            leading: opt_text(self.leading_comments),
            trailing: opt_text(self.trailing_comments),
            detached: Seq::new(
                self.leading_detached_comments@.len(),
                |i: int| self.leading_detached_comments@[i]@,
            ),
        }
    }
}

impl FileDescriptorProto {
    pub open spec fn model(&self) -> FileModel {
        FileModel {
            name: opt_text(self.name),
            package: opt_text(self.package),
            syntax: opt_text(self.syntax),
            messages: Seq::new(self.message_type@.len(), |i: int| self.message_type@[i].model()),
            enums: Seq::new(self.enum_type@.len(), |i: int| self.enum_type@[i].model()),
            locations: match self.source_code_info {
                Some(sci) => Some(Seq::new(sci.location@.len(), |i: int| sci.location@[i].model())),
                None => None,
            },
        }
    }
}


// ── Copies ──────────────────────────────────────────────────────────────────

/// A copy of an optional text.
pub fn copy_text(o: &Option<String>) -> (r: Option<String>)
    ensures
        opt_text(r) == opt_text(*o),
{
    match o {
        Some(s) => Some(s.clone()),
        None => None,
    }
}

impl EnumValueDescriptorProto {
    /// A copy of this value.
    pub fn duplicate(&self) -> (r: Self)
        ensures
            r.model() == self.model(),
    {
        EnumValueDescriptorProto { name: copy_text(&self.name), number: self.number }
    }
}

impl EnumDescriptorProto {
    /// A copy of this enum.
    pub fn duplicate(&self) -> (r: Self)
        ensures
            r.model() == self.model(),
    {
        let mut value: Vec<EnumValueDescriptorProto> = Vec::new();
        let mut i: usize = 0;
        while i < self.value.len()
            invariant
                i <= self.value@.len(),
                value@.len() == i,
                forall|k: int| 0 <= k < i ==> #[trigger] value@[k].model() == self.value@[k].model(),
            decreases self.value@.len() - i,
        {
            value.push(self.value[i].duplicate());
            i = i + 1;
        }
        let r = EnumDescriptorProto { name: copy_text(&self.name), value, options: self.options };
        assert(r.model().values =~= self.model().values);
        r
    }
}

impl OneofDescriptorProto {
    /// A copy of this oneof.
    pub fn duplicate(&self) -> (r: Self)
        ensures
            opt_text(r.name) == opt_text(self.name),
    {
        OneofDescriptorProto { name: copy_text(&self.name) }
    }
}

impl FieldDescriptorProto {
    /// A copy of this field.
    pub fn duplicate(&self) -> (r: Self)
        ensures
            r.model() == self.model(),
    {
        FieldDescriptorProto {
            name: copy_text(&self.name),
            number: self.number,
            label: self.label,
            field_type: self.field_type,
            type_ref: copy_text(&self.type_ref),
            default_value: copy_text(&self.default_value),
            options: self.options,
        }
    }
}

/// Copies of a message's oneofs.
pub fn copy_oneofs(v: &Vec<OneofDescriptorProto>) -> (r: Vec<OneofDescriptorProto>)
    ensures
        r@.len() == v@.len(),
        forall|k: int| 0 <= k < v@.len() ==> opt_text(#[trigger] r@[k].name) == opt_text(v@[k].name),
{
    let mut out: Vec<OneofDescriptorProto> = Vec::new();
    let mut i: usize = 0;
    while i < v.len()
        invariant
            i <= v@.len(),
            out@.len() == i,
            forall|k: int| 0 <= k < i ==> opt_text(#[trigger] out@[k].name) == opt_text(v@[k].name),
        decreases v@.len() - i,
    {
        out.push(v[i].duplicate());
        i = i + 1;
    }
    out
}

impl DescriptorProto {
    /// A copy of this message, nested types included.
    pub fn duplicate(&self) -> (r: Self)
        ensures
            r.model() == self.model(),
        decreases self,
    {
        let mut field: Vec<FieldDescriptorProto> = Vec::new();
        let mut i: usize = 0;
        while i < self.field.len()
            invariant
                i <= self.field@.len(),
                field@.len() == i,
                forall|k: int| 0 <= k < i ==> #[trigger] field@[k].model() == self.field@[k].model(),
            decreases self.field@.len() - i,
        {
            field.push(self.field[i].duplicate());
            i = i + 1;
        }
        let mut nested_type: Vec<DescriptorProto> = Vec::new();
        let mut i: usize = 0;
        while i < self.nested_type.len()
            invariant
                i <= self.nested_type@.len(),
                nested_type@.len() == i,
                forall|k: int| 0 <= k < i ==> #[trigger] nested_type@[k].model() == self.nested_type@[k].model(),
            decreases self.nested_type@.len() - i,
        {
            assert(decreases_to!(self => self.nested_type@[i as int]));
            nested_type.push(self.nested_type[i].duplicate());
            i = i + 1;
        }
        let mut enum_type: Vec<EnumDescriptorProto> = Vec::new();
        let mut i: usize = 0;
        while i < self.enum_type.len()
            invariant
                i <= self.enum_type@.len(),
                enum_type@.len() == i,
                forall|k: int| 0 <= k < i ==> #[trigger] enum_type@[k].model() == self.enum_type@[k].model(),
            decreases self.enum_type@.len() - i,
        {
            enum_type.push(self.enum_type[i].duplicate());
            i = i + 1;
        }
        let oneof_decl = copy_oneofs(&self.oneof_decl);
        let r = DescriptorProto {
            name: copy_text(&self.name),
            field,
            nested_type,
            enum_type,
            oneof_decl,
            options: self.options,
        };
        assert(r.model().fields =~= self.model().fields);
        assert forall|k: int| 0 <= k < self.nested_type@.len() implies #[trigger] r.model().nested[k] == self.model().nested[k] by {
            assert(r.nested_type@[k].model() == self.nested_type@[k].model());
        }
        assert(r.model().nested =~= self.model().nested);
        assert(r.model().enums =~= self.model().enums);
        assert(r.model().oneofs =~= self.model().oneofs);
        r
    }
}

impl Location {
    /// A copy of this location.
    pub fn duplicate(&self) -> (r: Self)
        ensures
            r.model() == self.model(),
    {
        let mut path: Vec<i32> = Vec::new();
        let mut i: usize = 0;
        while i < self.path.len()
            invariant
                i <= self.path@.len(),
                path@ == self.path@.take(i as int),
            decreases self.path@.len() - i,
        {
            path.push(self.path[i]);
            i = i + 1;
            assert(path@ =~= self.path@.take(i as int));
        }
        assert(self.path@.take(self.path@.len() as int) =~= self.path@);
        let mut detached: Vec<String> = Vec::new();
        let mut i: usize = 0;
        while i < self.leading_detached_comments.len()
            invariant
                i <= self.leading_detached_comments@.len(),
                detached@.len() == i,
                forall|k: int| 0 <= k < i ==> #[trigger] detached@[k]@ == self.leading_detached_comments@[k]@,
            decreases self.leading_detached_comments@.len() - i,
        {
            detached.push(self.leading_detached_comments[i].clone());
            i = i + 1;
        }
        let r = Location {
            path,
            leading_comments: copy_text(&self.leading_comments),
            trailing_comments: copy_text(&self.trailing_comments),
            leading_detached_comments: detached,
        };
        assert(r.model().detached =~= self.model().detached);
        r
    }
}

impl SourceCodeInfo {
    /// A copy of this source info.
    pub fn duplicate(&self) -> (r: Self)
        ensures
            r.location@.len() == self.location@.len(),
            forall|k: int| 0 <= k < self.location@.len() ==> #[trigger] r.location@[k].model() == self.location@[k].model(),
    {
        let mut location: Vec<Location> = Vec::new();
        let mut i: usize = 0;
        while i < self.location.len()
            invariant
                i <= self.location@.len(),
                location@.len() == i,
                forall|k: int| 0 <= k < i ==> #[trigger] location@[k].model() == self.location@[k].model(),
            decreases self.location@.len() - i,
        {
            location.push(self.location[i].duplicate());
            i = i + 1;
        }
        SourceCodeInfo { location }
    }
}

/// A copy of a file's source info.
pub fn copy_source_info(o: &Option<SourceCodeInfo>) -> (r: Option<SourceCodeInfo>)
    ensures
        r is Some == o is Some,
        r is Some ==> r->0.location@.len() == o->0.location@.len() && forall|k: int|
            0 <= k < o->0.location@.len() ==> #[trigger] r->0.location@[k].model() == o->0.location@[k].model(),
{
    match o {
        Some(s) => Some(s.duplicate()),
        None => None,
    }
}

} // verus!
