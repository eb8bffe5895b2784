//! Planning failures. Every core operation returns a result; a malformed
//! spec halts planning with one of these, it is never skipped over.

use crate::data::FieldData;
use crate::data::FieldSetting;
use crate::data::FieldType;
use crate::data::SettingModel;
use vstd::prelude::*;

verus! {

/// The view of an error: names as character sequences.
pub ghost enum ErrModel {
    FieldMismatch(FieldType, FieldData),
    InvalidProgram(Seq<char>, Seq<Seq<char>>),
    MissingParameter(Seq<char>, Seq<char>),
    InvalidParameterSetting(Seq<char>, SettingModel, FieldType),
    InvalidParameterData(Seq<char>, FieldData, FieldType),
    UnknownDependency(Seq<char>, Seq<char>),
}

#[derive(Debug, PartialEq)]
pub enum PlanError {
    /// A value does not satisfy a field's declared type at fill time.
    FieldMismatch(FieldType, FieldData),
    /// A job names a program that is not in the table; carries the known
    /// program names.
    InvalidProgram(String, Vec<String>),
    /// A required field (one without an option template) has nothing
    /// supplied; carries the field and the program name.
    MissingParameter(String, String),
    /// A supplied setting fails type compatibility with the declared field.
    InvalidParameterSetting(String, FieldSetting, FieldType),
    /// A supplied concrete value fails type compatibility.
    InvalidParameterData(String, FieldData, FieldType),
    /// A job lists a dependency that no earlier job has planned.
    UnknownDependency(String, String),
}

impl View for PlanError {
    type V = ErrModel;

    open spec fn view(&self) -> ErrModel {
        match *self {
            PlanError::FieldMismatch(t, d) => ErrModel::FieldMismatch(t, d),
            PlanError::InvalidProgram(n, opts) => ErrModel::InvalidProgram(
                n@,
                opts@.map_values(|s: String| s@),
            ),
            PlanError::MissingParameter(f, p) => ErrModel::MissingParameter(f@, p@),
            PlanError::InvalidParameterSetting(f, s, t) => ErrModel::InvalidParameterSetting(
                f@,
                s@,
                t,
            ),
            PlanError::InvalidParameterData(f, d, t) => ErrModel::InvalidParameterData(f@, d, t),
            PlanError::UnknownDependency(j, d) => ErrModel::UnknownDependency(j@, d@),
        }
    }
}

} // verus!
