//! Protobuf code-generation helpers: proto comment extraction and rustdoc
//! sanitising, C-escape decoding of `default_value` strings, path-scoped
//! feature overrides, package-root import assignment, and small runtime
//! representation types.

pub mod comments;
pub mod defaults;
pub mod descriptor;
pub mod doc_lines;
pub mod enumeration;
pub mod error;
pub mod feature_overrides;
pub mod idents;
pub mod imports;
pub mod name_set;
pub mod reflect;
pub mod reflect_fields;
pub mod reprs;
pub mod sanitize;
pub mod string_map;
pub mod text;
pub mod wkt_jiff;
