//! Errors raised while parsing a module.
use vstd::prelude::*;

use super::source::{describe_spec, LocationModel, SourceLocation};
use crate::strings::IntErrorKind;
use crate::text::concat;

verus! {

#[derive(Debug)]
pub enum IntermediateError {
    UnsupportedDeclaration { line: SourceLocation, decl_type: String },
    MissingDeclarationDetail { line: SourceLocation, kind: &'static str },
    MalformedMember { position: SourceLocation, reason: String },
    InvalidNumber { position: SourceLocation, value: String, source: IntErrorKind },
    DuplicateDefault { line: SourceLocation },
    InvalidArraySpec { line: SourceLocation },
    ImportAfterDeclaration { line: SourceLocation },
    InvalidImport { line: SourceLocation, reason: String },
    IllegalChar { line: SourceLocation, reason: char },
}

pub enum ErrorModel {
    UnsupportedDeclaration { line: LocationModel, decl_type: Seq<char> },
    MissingDeclarationDetail { line: LocationModel, kind: Seq<char> },
    MalformedMember { position: LocationModel, reason: Seq<char> },
    InvalidNumber { position: LocationModel, value: Seq<char>, source: IntErrorKind },
    DuplicateDefault { line: LocationModel },
    InvalidArraySpec { line: LocationModel },
    ImportAfterDeclaration { line: LocationModel },
    InvalidImport { line: LocationModel, reason: Seq<char> },
    IllegalChar { line: LocationModel, reason: char },
}

impl View for IntermediateError {
    type V = ErrorModel;

    open spec fn view(&self) -> ErrorModel {
        match self {
            IntermediateError::UnsupportedDeclaration { line, decl_type } =>
                ErrorModel::UnsupportedDeclaration { line: line@, decl_type: decl_type@ },
            IntermediateError::MissingDeclarationDetail { line, kind } =>
                ErrorModel::MissingDeclarationDetail { line: line@, kind: kind@ },
            IntermediateError::MalformedMember { position, reason } =>
                ErrorModel::MalformedMember { position: position@, reason: reason@ },
            IntermediateError::InvalidNumber { position, value, source } =>
                ErrorModel::InvalidNumber { position: position@, value: value@, source: *source },
            IntermediateError::DuplicateDefault { line } => ErrorModel::DuplicateDefault {
                line: line@,
            },
            IntermediateError::InvalidArraySpec { line } => ErrorModel::InvalidArraySpec {
                line: line@,
            },
            IntermediateError::ImportAfterDeclaration { line } =>
                ErrorModel::ImportAfterDeclaration { line: line@ },
            IntermediateError::InvalidImport { line, reason } => ErrorModel::InvalidImport {
                line: line@,
                reason: reason@,
            },
            IntermediateError::IllegalChar { line, reason } => ErrorModel::IllegalChar {
                line: line@,
                reason: *reason,
            },
        }
    }
}


/// How std describes why a string is not an integer.
pub open spec fn int_error_text(k: IntErrorKind) -> Seq<char> {
    match k {
        IntErrorKind::Empty => "cannot parse integer from empty string"@,
        IntErrorKind::InvalidDigit => "invalid digit found in string"@,
        IntErrorKind::PosOverflow => "number too large to fit in target type"@,
        IntErrorKind::NegOverflow => "number too small to fit in target type"@,
    }
}

impl IntErrorKind {
    /// The description std gives of this kind of integer error.
    pub fn message(&self) -> (r: &'static str)
        ensures
            r@ == int_error_text(*self),
    {
        match self {
            IntErrorKind::Empty => "cannot parse integer from empty string",
            IntErrorKind::InvalidDigit => "invalid digit found in string",
            IntErrorKind::PosOverflow => "number too large to fit in target type",
            IntErrorKind::NegOverflow => "number too small to fit in target type",
        }
    }
}

pub open spec fn message_spec(e: ErrorModel) -> Seq<char> {
    match e {
        ErrorModel::UnsupportedDeclaration { line, decl_type } => "unsupported declaration type `"@
            + decl_type + "` at "@ + describe_spec(line),
        ErrorModel::MissingDeclarationDetail { line, kind } => kind
            + " declaration requires additional detail at "@ + describe_spec(line),
        ErrorModel::MalformedMember { position, reason } => "malformed member at "@ + describe_spec(
            position,
        ) + ": "@ + reason,
        ErrorModel::InvalidNumber { position, value, source } => "invalid number `"@ + value
            + "` at "@ + describe_spec(position) + ": "@ + int_error_text(source),
        ErrorModel::DuplicateDefault { line } => "duplicate default member at line "@
            + describe_spec(line),
        ErrorModel::InvalidArraySpec { line } => "invalid array specification at line "@
            + describe_spec(line),
        ErrorModel::ImportAfterDeclaration { line } =>
            "import declarations must appear before type definitions at "@ + describe_spec(line),
        ErrorModel::InvalidImport { line, reason } => "invalid import at "@ + describe_spec(line)
            + ": "@ + reason,
        ErrorModel::IllegalChar { line, reason } => "type name contains illegal character "@
            + seq![reason],
    }
}

impl IntermediateError {
    /// The error as text.
    pub fn message(&self) -> (r: String)
        ensures
            r@ == message_spec(self@),
    {
        match self {
            IntermediateError::UnsupportedDeclaration { line, decl_type } => {
                let mut r = concat("unsupported declaration type `", decl_type.as_str());
                r.append("` at ");
                r.append(line.describe().as_str());
                r
            },
            IntermediateError::MissingDeclarationDetail { line, kind } => {
                let mut r = concat(kind, " declaration requires additional detail at ");
                r.append(line.describe().as_str());
                r
            },
            IntermediateError::MalformedMember { position, reason } => {
                let mut r = concat("malformed member at ", position.describe().as_str());
                r.append(": ");
                r.append(reason.as_str());
                r
            },
            IntermediateError::InvalidNumber { position, value, source } => {
                let mut r = concat("invalid number `", value.as_str());
                r.append("` at ");
                r.append(position.describe().as_str());
                r.append(": ");
                r.append(source.message());
                r
            },
            IntermediateError::DuplicateDefault { line } => {
                concat("duplicate default member at line ", line.describe().as_str())
            },
            IntermediateError::InvalidArraySpec { line } => {
                concat("invalid array specification at line ", line.describe().as_str())
            },
            IntermediateError::ImportAfterDeclaration { line } => {
                concat(
                    "import declarations must appear before type definitions at ",
                    line.describe().as_str(),
                )
            },
            IntermediateError::InvalidImport { line, reason } => {
                let mut r = concat("invalid import at ", line.describe().as_str());
                r.append(": ");
                r.append(reason.as_str());
                r
            },
            IntermediateError::IllegalChar { reason, .. } => {
                let mut r = "type name contains illegal character ".to_string();
                crate::text::push_char(&mut r, *reason);
                r
            },
        }
    }
}

} // verus!
