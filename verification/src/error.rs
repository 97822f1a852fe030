//! The error type of code generation.

use vstd::prelude::*;

verus! {

/// An error raised while generating code from descriptors.
#[derive(Debug, PartialEq, Eq)]
pub enum CodeGenError {
    /// A descriptor value could not be turned into code; the message says why.
    Other(String),
    /// A descriptor lacks a field code generation needs, named by its path
    /// (`enum_value.name`).
    MissingField(String),
}

/// The text an error carries, by kind.
pub enum CodeGenErrorModel {
    Other(Seq<char>),
    MissingField(Seq<char>),
}

impl View for CodeGenError {
    type V = CodeGenErrorModel;

    open spec fn view(&self) -> CodeGenErrorModel {
        match self {
            CodeGenError::Other(m) => CodeGenErrorModel::Other(m@),
            CodeGenError::MissingField(f) => CodeGenErrorModel::MissingField(f@),
        }
    }
}

impl CodeGenError {
    /// The human-readable message, or the path of the missing field.
    pub fn message(&self) -> (r: &String)
        ensures
            r == match self {
                CodeGenError::Other(m) => m,
                CodeGenError::MissingField(f) => f,
            },
    {
        match self {
            CodeGenError::Other(m) => m,
            CodeGenError::MissingField(f) => f,
        }
    }
}

} // verus!
