//! Why a module does not compile.
use vstd::prelude::*;

use super::types::{FitError, Primitive};
use crate::intermediate::ast::type_names_model;
use crate::intermediate::source::LocationModel;
use crate::intermediate::{SourceLocation, TypeName};
use crate::intermediate::error::int_error_text;
use crate::intermediate::source::describe_spec;
use crate::strings::IntErrorKind;
use crate::text::{concat, decimal, i128_to_string, i64_to_string, signed_decimal, u32_to_string, u64_to_string};

verus! {

/// A rule that a declaration breaks.
#[derive(Debug)]
pub enum Problem {
    /// A member or element that must be plain old data is not.
    NotPod { ty: TypeName },
    /// Member names repeat; the repeated names, in order.
    DuplicateNames { names: Vec<String> },
    /// Two enumerants share a value.
    DuplicateEnumValue { name: String, value: i64 },
    /// A base or tag type is not an unsigned integer.
    NotUnsignedInteger { ty: TypeName },
    /// A constant's type is not (an alias of) an integer primitive.
    NotPrimitive { ty: TypeName },
    /// A value is not representable by the base or tag type.
    DoesNotFit { what: String, value: i128, primitive: Primitive, reason: FitError },
    /// A bit range starts after it ends.
    RangeReversed { member: String, start: u32, end: u32 },
    /// A bit range ends beyond the width of the base type.
    RangeTooWide { member: String, end: u32, width: u32 },
    /// A bit range overlaps an earlier member's.
    Overlap { member: String },
    /// A bitfield member is neither an integer nor an enum over an integer.
    BadMemberType { member: String, ty: TypeName },
    /// Two variant cases share a discriminant.
    DuplicateDiscriminant { value: u64 },
    /// A dynamic array of `void`.
    VoidElement,
    /// A fixed array of no elements.
    EmptyFixedArray,
}

#[derive(Debug)]
pub enum CompileError {
    /// A type name is defined twice (or redefines a builtin).
    DuplicateTypeName { name: TypeName, defined_at: SourceLocation, previous: SourceLocation },
    /// A name that no declaration defines, and where it was used.
    UnknownTypeName { name: TypeName, context: String },
    /// A bit range that is not `N` or `N-M`.
    InvalidBitRange { context: String, range: String, source: IntErrorKind },
    /// Declarations whose layouts depend on each other in a cycle; the names along it.
    CyclicDefinitions { cycle: Vec<TypeName> },
    /// A declaration breaks a rule.
    Invalid { context: String, problem: Problem },
    /// Two worlds define the same name differently.
    ConflictingDefinitions { name: TypeName, first: SourceLocation, second: SourceLocation },
    /// A world without types cannot take another in.
    EmptyWorld,
}

pub enum ProblemModel {
    NotPod { ty: Seq<char> },
    DuplicateNames { names: Seq<Seq<char>> },
    DuplicateEnumValue { name: Seq<char>, value: i64 },
    NotUnsignedInteger { ty: Seq<char> },
    NotPrimitive { ty: Seq<char> },
    DoesNotFit { what: Seq<char>, value: i128, primitive: Primitive, reason: FitError },
    RangeReversed { member: Seq<char>, start: u32, end: u32 },
    RangeTooWide { member: Seq<char>, end: u32, width: u32 },
    Overlap { member: Seq<char> },
    BadMemberType { member: Seq<char>, ty: Seq<char> },
    DuplicateDiscriminant { value: u64 },
    VoidElement,
    EmptyFixedArray,
}

pub enum ErrorModel {
    DuplicateTypeName { name: Seq<char>, defined_at: LocationModel, previous: LocationModel },
    UnknownTypeName { name: Seq<char>, context: Seq<char> },
    InvalidBitRange { context: Seq<char>, range: Seq<char>, source: IntErrorKind },
    CyclicDefinitions { cycle: Seq<Seq<char>> },
    Invalid { context: Seq<char>, problem: ProblemModel },
    ConflictingDefinitions { name: Seq<char>, first: LocationModel, second: LocationModel },
    EmptyWorld,
}

pub open spec fn strings_model(v: Seq<String>) -> Seq<Seq<char>> {
    v.map_values(|s: String| s@)
}

impl View for Problem {
    type V = ProblemModel;

    open spec fn view(&self) -> ProblemModel {
        match self {
            Problem::NotPod { ty } => ProblemModel::NotPod { ty: ty@ },
            Problem::DuplicateNames { names } => ProblemModel::DuplicateNames {
                names: strings_model(names@),
            },
            Problem::DuplicateEnumValue { name, value } => ProblemModel::DuplicateEnumValue {
                name: name@,
                value: *value,
            },
            Problem::NotUnsignedInteger { ty } => ProblemModel::NotUnsignedInteger { ty: ty@ },
            Problem::NotPrimitive { ty } => ProblemModel::NotPrimitive { ty: ty@ },
            Problem::DoesNotFit { what, value, primitive, reason } => ProblemModel::DoesNotFit {
                what: what@,
                value: *value,
                primitive: *primitive,
                reason: *reason,
            },
            Problem::RangeReversed { member, start, end } => ProblemModel::RangeReversed {
                member: member@,
                start: *start,
                end: *end,
            },
            Problem::RangeTooWide { member, end, width } => ProblemModel::RangeTooWide {
                member: member@,
                end: *end,
                width: *width,
            },
            Problem::Overlap { member } => ProblemModel::Overlap { member: member@ },
            Problem::BadMemberType { member, ty } => ProblemModel::BadMemberType {
                member: member@,
                ty: ty@,
            },
            Problem::DuplicateDiscriminant { value } => ProblemModel::DuplicateDiscriminant {
                value: *value,
            },
            Problem::VoidElement => ProblemModel::VoidElement,
            Problem::EmptyFixedArray => ProblemModel::EmptyFixedArray,
        }
    }
}

impl View for CompileError {
    type V = ErrorModel;

    open spec fn view(&self) -> ErrorModel {
        match self {
            CompileError::DuplicateTypeName { name, defined_at, previous } =>
                ErrorModel::DuplicateTypeName {
                name: name@,
                defined_at: defined_at@,
                previous: previous@,
            },
            CompileError::UnknownTypeName { name, context } => ErrorModel::UnknownTypeName {
                name: name@,
                context: context@,
            },
            CompileError::InvalidBitRange { context, range, source } =>
                ErrorModel::InvalidBitRange { context: context@, range: range@, source: *source },
            CompileError::CyclicDefinitions { cycle } => ErrorModel::CyclicDefinitions {
                cycle: type_names_model(cycle@),
            },
            CompileError::Invalid { context, problem } => ErrorModel::Invalid {
                context: context@,
                problem: problem@,
            },
            CompileError::ConflictingDefinitions { name, first, second } =>
                ErrorModel::ConflictingDefinitions {
                name: name@,
                first: first@,
                second: second@,
            },
            CompileError::EmptyWorld => ErrorModel::EmptyWorld,
        }
    }
}


/// The names joined with `sep`.
pub open spec fn joined(names: Seq<Seq<char>>, sep: Seq<char>) -> Seq<char>
    decreases names.len(),
{
    if names.len() == 0 {
        Seq::empty()
    } else if names.len() == 1 {
        names[0]
    } else {
        joined(names.drop_last(), sep) + sep + names.last()
    }
}

pub open spec fn problem_text(p: ProblemModel) -> Seq<char> {
    match p {
        ProblemModel::NotPod { ty } => "type "@ + ty + " is not POD"@,
        ProblemModel::DuplicateNames { names } => "all names must be unique: "@ + joined(names, ","@),
        ProblemModel::DuplicateEnumValue { name, value } => "duplicate enumerant value: "@ + name
            + " -> "@ + signed_decimal(value as int),
        ProblemModel::NotUnsignedInteger { ty } => "type "@ + ty
            + " is not integer with sign Unsigned"@,
        ProblemModel::NotPrimitive { ty } => "type "@ + ty + " is not primitive: a constant needs an integer type"@,
        ProblemModel::DoesNotFit { what, value, primitive, reason } => "checking "@ + what + ": "@
            + match reason {
            FitError::NotInteger => "integer cannot fit in a float"@,
            FitError::OutOfRange => "value "@ + signed_decimal(value as int)
                + " cannot fit in a primitive of "@ + primitive.spec_name(),
        },
        ProblemModel::RangeReversed { member, start, end } => "bitfield range start "@ + decimal(
            start as nat,
        ) + " greater than end "@ + decimal(end as nat) + " for member "@ + member,
        ProblemModel::RangeTooWide { member, end, width } => "bitfield range end "@ + decimal(
            end as nat,
        ) + " exceeds underlying width "@ + decimal(width as nat) + " for member "@ + member,
        ProblemModel::Overlap { member } => "bitfield member "@ + member
            + " overlaps with previous members"@,
        ProblemModel::BadMemberType { member, ty } => "checking member "@ + member + ": type "@
            + ty + ": bitfield members must be primitive integers or enums"@,
        ProblemModel::DuplicateDiscriminant { value } => "duplicate discriminant value "@ + decimal(
            value as nat,
        ),
        ProblemModel::VoidElement => "dynarray element type may not be void"@,
        ProblemModel::EmptyFixedArray => "fixed arrays must have a positive element count"@,
    }
}

pub open spec fn compile_message(e: ErrorModel) -> Seq<char> {
    match e {
        ErrorModel::DuplicateTypeName { name, defined_at, previous } => "duplicate type name "@
            + name + " defined at "@ + describe_spec(defined_at) + " (previously defined at "@
            + describe_spec(previous) + ")"@,
        ErrorModel::UnknownTypeName { name, context } => if context.len() == 0 {
            "unknown type name `"@ + name + "`"@
        } else {
            "while resolving "@ + context + ": unknown type name `"@ + name + "`"@
        },
        ErrorModel::InvalidBitRange { context, range, source } => "while parsing "@ + context
            + ": invalid bit range `"@ + range + "`: "@ + int_error_text(source),
        ErrorModel::CyclicDefinitions { cycle } => if cycle.len() == 0 {
            "cyclic type definitions detected"@
        } else {
            "cyclic type definitions detected: "@ + joined(cycle, " -> "@)
        },
        ErrorModel::Invalid { context, problem } => "while verifying "@ + context + ": "@
            + problem_text(problem),
        ErrorModel::ConflictingDefinitions { name, first, second } => "type "@ + name
            + " has conflicting definitions, first found at: "@ + describe_spec(first)
            + ", second found at: "@ + describe_spec(second),
        ErrorModel::EmptyWorld => "unable to remap type id while merging modules"@,
    }
}

fn join_strings(names: &Vec<String>, sep: &str) -> (r: String)
    ensures
        r@ == joined(strings_model(names@), sep@),
{
    let mut r = String::new();
    let mut i: usize = 0;
    while i < names.len()
        invariant
            i <= names@.len(),
            r@ == joined(strings_model(names@).take(i as int), sep@),
        decreases names.len() - i,
    {
        if i > 0 {
            r.append(sep);
        }
        r.append(names[i].as_str());
        i = i + 1;
        proof {
            let t = strings_model(names@).take(i as int);
            assert(t.drop_last() =~= strings_model(names@).take(i as int - 1));
            if i > 1 {
            } else {
                assert(t.len() == 1);
            }
        }
    }
    assert(strings_model(names@).take(i as int) =~= strings_model(names@));
    r
}

fn join_names(names: &Vec<TypeName>, sep: &str) -> (r: String)
    ensures
        r@ == joined(type_names_model(names@), sep@),
{
    let mut r = String::new();
    let mut i: usize = 0;
    while i < names.len()
        invariant
            i <= names@.len(),
            r@ == joined(type_names_model(names@).take(i as int), sep@),
        decreases names.len() - i,
    {
        if i > 0 {
            r.append(sep);
        }
        r.append(names[i].as_str());
        i = i + 1;
        proof {
            let t = type_names_model(names@).take(i as int);
            assert(t.drop_last() =~= type_names_model(names@).take(i as int - 1));
        }
    }
    assert(type_names_model(names@).take(i as int) =~= type_names_model(names@));
    r
}

impl Problem {
    /// The rule broken, as text.
    pub fn message(&self) -> (r: String)
        ensures
            r@ == problem_text(self@),
    {
        match self {
            Problem::NotPod { ty } => {
                let mut r = concat("type ", ty.as_str());
                r.append(" is not POD");
                r
            },
            Problem::DuplicateNames { names } => {
                concat("all names must be unique: ", join_strings(names, ",").as_str())
            },
            Problem::DuplicateEnumValue { name, value } => {
                let mut r = concat("duplicate enumerant value: ", name.as_str());
                r.append(" -> ");
                r.append(i64_to_string(*value).as_str());
                r
            },
            Problem::NotUnsignedInteger { ty } => {
                let mut r = concat("type ", ty.as_str());
                r.append(" is not integer with sign Unsigned");
                r
            },
            Problem::NotPrimitive { ty } => {
                let mut r = concat("type ", ty.as_str());
                r.append(" is not primitive: a constant needs an integer type");
                r
            },
            Problem::DoesNotFit { what, value, primitive, reason } => {
                let mut r = concat("checking ", what.as_str());
                r.append(": ");
                match reason {
                    FitError::NotInteger => {
                        r.append("integer cannot fit in a float");
                    },
                    FitError::OutOfRange => {
                        r.append("value ");
                        r.append(i128_to_string(*value).as_str());
                        r.append(" cannot fit in a primitive of ");
                        r.append(primitive.to_string().as_str());
                    },
                }
                r
            },
            Problem::RangeReversed { member, start, end } => {
                let mut r = concat("bitfield range start ", u32_to_string(*start).as_str());
                r.append(" greater than end ");
                r.append(u32_to_string(*end).as_str());
                r.append(" for member ");
                r.append(member.as_str());
                r
            },
            Problem::RangeTooWide { member, end, width } => {
                let mut r = concat("bitfield range end ", u32_to_string(*end).as_str());
                r.append(" exceeds underlying width ");
                r.append(u32_to_string(*width).as_str());
                r.append(" for member ");
                r.append(member.as_str());
                r
            },
            Problem::Overlap { member } => {
                let mut r = concat("bitfield member ", member.as_str());
                r.append(" overlaps with previous members");
                r
            },
            Problem::BadMemberType { member, ty } => {
                let mut r = concat("checking member ", member.as_str());
                r.append(": type ");
                r.append(ty.as_str());
                r.append(": bitfield members must be primitive integers or enums");
                r
            },
            Problem::DuplicateDiscriminant { value } => {
                concat("duplicate discriminant value ", u64_to_string(*value).as_str())
            },
            Problem::VoidElement => "dynarray element type may not be void".to_string(),
            Problem::EmptyFixedArray => "fixed arrays must have a positive element count".to_string(),
        }
    }
}

impl CompileError {
    /// The error as text.
    pub fn message(&self) -> (r: String)
        ensures
            r@ == compile_message(self@),
    {
        match self {
            CompileError::DuplicateTypeName { name, defined_at, previous } => {
                let mut r = concat("duplicate type name ", name.as_str());
                r.append(" defined at ");
                r.append(defined_at.describe().as_str());
                r.append(" (previously defined at ");
                r.append(previous.describe().as_str());
                r.append(")");
                r
            },
            CompileError::UnknownTypeName { name, context } => {
                let mut r = if crate::text::chars_of(context.as_str()).len() == 0 {
                    "unknown type name `".to_string()
                } else {
                    let mut r = concat("while resolving ", context.as_str());
                    r.append(": unknown type name `");
                    r
                };
                r.append(name.as_str());
                r.append("`");
                r
            },
            CompileError::InvalidBitRange { context, range, source } => {
                let mut r = concat("while parsing ", context.as_str());
                r.append(": invalid bit range `");
                r.append(range.as_str());
                r.append("`: ");
                r.append(source.message());
                r
            },
            CompileError::CyclicDefinitions { cycle } => {
                if cycle.len() == 0 {
                    "cyclic type definitions detected".to_string()
                } else {
                    concat("cyclic type definitions detected: ", join_names(cycle, " -> ").as_str())
                }
            },
            CompileError::Invalid { context, problem } => {
                let mut r = concat("while verifying ", context.as_str());
                r.append(": ");
                r.append(problem.message().as_str());
                r
            },
            CompileError::ConflictingDefinitions { name, first, second } => {
                let mut r = concat("type ", name.as_str());
                r.append(" has conflicting definitions, first found at: ");
                r.append(first.describe().as_str());
                r.append(", second found at: ");
                r.append(second.describe().as_str());
                r
            },
            CompileError::EmptyWorld => "unable to remap type id while merging modules".to_string(),
        }
    }
}

} // verus!
