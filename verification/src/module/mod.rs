//! Token-driven module builder: the type table produced by parsing a token
//! stream, the errors raised while building it, and the checks run on it.
use vstd::prelude::*;

pub mod check;
pub mod order;
pub mod parse;

use crate::strings::{trim, trim_chars};
use crate::text::{chars_of, is_alphabetic, is_whitespace, string_from_chars};
use crate::text::{unicode_alphabetic, unicode_whitespace};
use crate::tokens::{span_text, LexError, LexErrorModel, Span, Token, TokenModel};

verus! {

/// Identifier of a type within a module.
#[derive(Debug, Clone, Copy, PartialEq, Eq, Hash, Structural)]
pub struct TypeID(pub u32);

/// Built-in scalar types.
#[derive(Debug, Clone, Copy, PartialEq, Eq, Structural)]
pub enum Primitive {
    I8,
    I16,
    I32,
    I64,
    U8,
    U16,
    U32,
    U64,
    F32,
    F64,
}

pub open spec fn is_integer_spec(p: Primitive) -> bool {
    !(p == Primitive::F32 || p == Primitive::F64)
}

pub open spec fn bit_width_spec(p: Primitive) -> Option<u32> {
    match p {
        Primitive::I8 | Primitive::U8 => Some(8),
        Primitive::I16 | Primitive::U16 => Some(16),
        Primitive::I32 | Primitive::U32 => Some(32),
        Primitive::I64 | Primitive::U64 => Some(64),
        Primitive::F32 | Primitive::F64 => None,
    }
}

/// Smallest and largest value of an integer primitive.
pub open spec fn int_bounds_spec(p: Primitive) -> Option<(i128, i128)> {
    match p {
        Primitive::U8 => Some((0, 0xff)),
        Primitive::U16 => Some((0, 0xffff)),
        Primitive::U32 => Some((0, 0xffff_ffff)),
        Primitive::U64 => Some((0, 0xffff_ffff_ffff_ffff)),
        Primitive::I8 => Some((i8::MIN as i128, i8::MAX as i128)),
        Primitive::I16 => Some((i16::MIN as i128, i16::MAX as i128)),
        Primitive::I32 => Some((i32::MIN as i128, i32::MAX as i128)),
        Primitive::I64 => Some((i64::MIN as i128, i64::MAX as i128)),
        Primitive::F32 | Primitive::F64 => None,
    }
}

pub open spec fn primitive_name(p: Primitive) -> Seq<char> {
    match p {
        Primitive::I8 => "i8"@,
        Primitive::I16 => "i16"@,
        Primitive::I32 => "i32"@,
        Primitive::I64 => "i64"@,
        Primitive::U8 => "u8"@,
        Primitive::U16 => "u16"@,
        Primitive::U32 => "u32"@,
        Primitive::U64 => "u64"@,
        Primitive::F32 => "f32"@,
        Primitive::F64 => "f64"@,
    }
}

impl Primitive {
    pub fn is_integer(&self) -> (b: bool)
        ensures
            b == is_integer_spec(*self),
    {
        !matches!(self, Primitive::F32 | Primitive::F64)
    }

    pub fn bit_width(&self) -> (r: Option<u32>)
        ensures
            r == bit_width_spec(*self),
    {
        match self {
            Primitive::I8 | Primitive::U8 => Some(8),
            Primitive::I16 | Primitive::U16 => Some(16),
            Primitive::I32 | Primitive::U32 => Some(32),
            Primitive::I64 | Primitive::U64 => Some(64),
            Primitive::F32 | Primitive::F64 => None,
        }
    }

    pub fn int_bounds(&self) -> (r: Option<(i128, i128)>)
        ensures
            r == int_bounds_spec(*self),
    {
        match self {
            Primitive::U8 => Some((0, 0xff)),
            Primitive::U16 => Some((0, 0xffff)),
            Primitive::U32 => Some((0, 0xffff_ffff)),
            Primitive::U64 => Some((0, 0xffff_ffff_ffff_ffff)),
            Primitive::I8 => Some((i8::MIN as i128, i8::MAX as i128)),
            Primitive::I16 => Some((i16::MIN as i128, i16::MAX as i128)),
            Primitive::I32 => Some((i32::MIN as i128, i32::MAX as i128)),
            Primitive::I64 => Some((i64::MIN as i128, i64::MAX as i128)),
            Primitive::F32 | Primitive::F64 => None,
        }
    }

    /// The DSL spelling of the primitive (what `Display` shows).
    pub fn name(&self) -> (r: &'static str)
        ensures
            r@ == primitive_name(*self),
    {
        match self {
            Primitive::I8 => "i8",
            Primitive::I16 => "i16",
            Primitive::I32 => "i32",
            Primitive::I64 => "i64",
            Primitive::U8 => "u8",
            Primitive::U16 => "u16",
            Primitive::U32 => "u32",
            Primitive::U64 => "u64",
            Primitive::F32 => "f32",
            Primitive::F64 => "f64",
        }
    }
}

/// Inclusive range of bit positions `start..=end`.
#[derive(Debug, Clone, Copy, PartialEq, Eq, Structural)]
pub struct BitRange {
    pub start: u32,
    pub end: u32,
}

#[derive(Debug)]
pub struct Pack {
    pub members: Vec<(String, TypeID)>,
}

#[derive(Debug)]
pub struct Enum {
    pub ty: Primitive,
    pub members: Vec<(String, i64)>,
    pub default: Option<(String, i64)>,
}

#[derive(Debug)]
pub struct Bitfld {
    pub ty: TypeID,
    pub members: Vec<(String, TypeID, BitRange)>,
}

#[derive(Debug)]
pub struct Variant {
    pub ty: Primitive,
    pub members: Vec<(u64, TypeID)>,
    pub default: Option<(u64, TypeID)>,
}

#[derive(Debug)]
pub struct Sequence {
    pub members: Vec<(String, TypeID)>,
}

#[derive(Debug, Clone, Copy, PartialEq, Eq, Structural)]
pub enum ArrayKind {
    Dynamic { size_type: TypeID, value_type: TypeID },
    Fixed { count: u64, value_type: TypeID },
}

#[derive(Debug)]
pub enum TypeKind {
    Primitive(Primitive),
    Alias(Box<Type>),
    Pack(Pack),
    Enum(Enum),
    Bitfld(Bitfld),
    Variant(Variant),
    Sequence(Sequence),
    DynamicArray(ArrayKind),
    FixedArray(ArrayKind),
}

#[derive(Debug)]
pub struct Type {
    pub defined_at: Span,
    pub kind: TypeKind,
}

/// Mathematical model of a type kind: names become character sequences.
pub enum KindModel {
    Primitive(Primitive),
    Alias(Box<TypeModel>),
    Pack(Seq<(Seq<char>, TypeID)>),
    Enum { ty: Primitive, members: Seq<(Seq<char>, i64)>, default: Option<(Seq<char>, i64)> },
    Bitfld { ty: TypeID, members: Seq<(Seq<char>, TypeID, BitRange)> },
    Variant { ty: Primitive, members: Seq<(u64, TypeID)>, default: Option<(u64, TypeID)> },
    Sequence(Seq<(Seq<char>, TypeID)>),
    DynamicArray(ArrayKind),
    FixedArray(ArrayKind),
}

pub struct TypeModel {
    pub defined_at: Span,
    pub kind: KindModel,
}

pub open spec fn named_ids(v: Seq<(String, TypeID)>) -> Seq<(Seq<char>, TypeID)> {
    v.map_values(|m: (String, TypeID)| (m.0@, m.1))
}

pub open spec fn named_values(v: Seq<(String, i64)>) -> Seq<(Seq<char>, i64)> {
    v.map_values(|m: (String, i64)| (m.0@, m.1))
}

pub open spec fn named_ranges(v: Seq<(String, TypeID, BitRange)>) -> Seq<(Seq<char>, TypeID, BitRange)> {
    v.map_values(|m: (String, TypeID, BitRange)| (m.0@, m.1, m.2))
}

pub open spec fn type_model(t: Type) -> TypeModel
    decreases t,
{
    TypeModel {
        defined_at: t.defined_at,
        kind: match t.kind {
            TypeKind::Primitive(p) => KindModel::Primitive(p),
            TypeKind::Alias(inner) => KindModel::Alias(Box::new(type_model(*inner))),
            TypeKind::Pack(p) => KindModel::Pack(named_ids(p.members@)),
            TypeKind::Enum(e) => KindModel::Enum {
                ty: e.ty,
                members: named_values(e.members@),
                default: match e.default {
                    Some(d) => Some((d.0@, d.1)),
                    None => None,
                },
            },
            TypeKind::Bitfld(b) => KindModel::Bitfld { ty: b.ty, members: named_ranges(b.members@) },
            TypeKind::Variant(v) => KindModel::Variant {
                ty: v.ty,
                members: v.members@,
                default: v.default,
            },
            TypeKind::Sequence(s) => KindModel::Sequence(named_ids(s.members@)),
            TypeKind::DynamicArray(a) => KindModel::DynamicArray(a),
            TypeKind::FixedArray(a) => KindModel::FixedArray(a),
        },
    }
}

impl View for Type {
    type V = TypeModel;

    open spec fn view(&self) -> TypeModel {
        type_model(*self)
    }
}

/// Errors raised while building a module from tokens.
#[derive(Debug)]
pub enum ModuleBuildError {
    Lex(LexError),
    UnknownType(TypeID),
    BadLookup(String, Span),
    NonPODInPack(String, Span),
    NonIntEnum(String, Span, Primitive),
    EnumValueOutOfRange { name: String, at: Span, value: i128, min: i128, max: i128 },
    NonIntBitfld(String, Span, String),
    BitfldVOutOfRange { name: String, at: Span, end: u32, width: u32 },
    NonIntVariant(String, Span, Primitive),
    VariantValueOutOfRange { at: Span, value: i128, max: i128 },
    FixedArrayRequiresPOD(Span),
    ArraySizeTypeNotInteger { n_m: &'static str, at: Span },
    ArrayCountNotPositive { i_m: &'static str, at: Span },
    InvalidTypeName { at: Span, reason: String },
    DuplicateTypeDefinition { name: String, at: Span, prev: String },
    BitfieldMemberTypeInvalid { field: String, at: Span },
    UnexpectedDefault { kind: &'static str, at: Span },
    InvalidBitRange { at: Span, start: u32, end: u32 },
    EnumValueNotInteger(Span),
    VariantValueNegative(Span),
    NonPrimitiveEnumBase(String, String, Span),
    NonPrimitiveVariantBase(String, String, Span),
    UnexpectedToken { expected: String, found: Token },
    UnexpectedEOF,
    Internal(String),
}

/// Mathematical model of a module-building error.
pub enum BuildErrorModel {
    Lex(LexErrorModel),
    UnknownType(TypeID),
    BadLookup(Seq<char>, Span),
    NonPODInPack(Seq<char>, Span),
    NonIntEnum(Seq<char>, Span, Primitive),
    EnumValueOutOfRange { name: Seq<char>, at: Span, value: i128, min: i128, max: i128 },
    NonIntBitfld(Seq<char>, Span, Seq<char>),
    BitfldVOutOfRange { name: Seq<char>, at: Span, end: u32, width: u32 },
    NonIntVariant(Seq<char>, Span, Primitive),
    VariantValueOutOfRange { at: Span, value: i128, max: i128 },
    FixedArrayRequiresPOD(Span),
    ArraySizeTypeNotInteger { n_m: Seq<char>, at: Span },
    ArrayCountNotPositive { i_m: Seq<char>, at: Span },
    InvalidTypeName { at: Span, reason: Seq<char> },
    DuplicateTypeDefinition { name: Seq<char>, at: Span, prev: Seq<char> },
    BitfieldMemberTypeInvalid { field: Seq<char>, at: Span },
    UnexpectedDefault { kind: Seq<char>, at: Span },
    InvalidBitRange { at: Span, start: u32, end: u32 },
    EnumValueNotInteger(Span),
    VariantValueNegative(Span),
    NonPrimitiveEnumBase(Seq<char>, Seq<char>, Span),
    NonPrimitiveVariantBase(Seq<char>, Seq<char>, Span),
    UnexpectedToken { expected: Seq<char>, found: TokenModel },
    UnexpectedEOF,
    Internal(Seq<char>),
}

impl View for ModuleBuildError {
    type V = BuildErrorModel;

    open spec fn view(&self) -> BuildErrorModel {
        match self {
            ModuleBuildError::Lex(e) => BuildErrorModel::Lex(e@),
            ModuleBuildError::UnknownType(t) => BuildErrorModel::UnknownType(*t),
            ModuleBuildError::BadLookup(n, s) => BuildErrorModel::BadLookup(n@, *s),
            ModuleBuildError::NonPODInPack(n, s) => BuildErrorModel::NonPODInPack(n@, *s),
            ModuleBuildError::NonIntEnum(n, s, p) => BuildErrorModel::NonIntEnum(n@, *s, *p),
            ModuleBuildError::EnumValueOutOfRange { name, at, value, min, max } =>
                BuildErrorModel::EnumValueOutOfRange {
                name: name@,
                at: *at,
                value: *value,
                min: *min,
                max: *max,
            },
            ModuleBuildError::NonIntBitfld(n, s, u) => BuildErrorModel::NonIntBitfld(n@, *s, u@),
            ModuleBuildError::BitfldVOutOfRange { name, at, end, width } =>
                BuildErrorModel::BitfldVOutOfRange { name: name@, at: *at, end: *end, width: *width },
            ModuleBuildError::NonIntVariant(n, s, p) => BuildErrorModel::NonIntVariant(n@, *s, *p),
            ModuleBuildError::VariantValueOutOfRange { at, value, max } =>
                BuildErrorModel::VariantValueOutOfRange { at: *at, value: *value, max: *max },
            ModuleBuildError::FixedArrayRequiresPOD(s) => BuildErrorModel::FixedArrayRequiresPOD(*s),
            ModuleBuildError::ArraySizeTypeNotInteger { n_m, at } =>
                BuildErrorModel::ArraySizeTypeNotInteger { n_m: n_m@, at: *at },
            ModuleBuildError::ArrayCountNotPositive { i_m, at } =>
                BuildErrorModel::ArrayCountNotPositive { i_m: i_m@, at: *at },
            ModuleBuildError::InvalidTypeName { at, reason } =>
                BuildErrorModel::InvalidTypeName { at: *at, reason: reason@ },
            ModuleBuildError::DuplicateTypeDefinition { name, at, prev } =>
                BuildErrorModel::DuplicateTypeDefinition { name: name@, at: *at, prev: prev@ },
            ModuleBuildError::BitfieldMemberTypeInvalid { field, at } =>
                BuildErrorModel::BitfieldMemberTypeInvalid { field: field@, at: *at },
            ModuleBuildError::UnexpectedDefault { kind, at } =>
                BuildErrorModel::UnexpectedDefault { kind: kind@, at: *at },
            ModuleBuildError::InvalidBitRange { at, start, end } =>
                BuildErrorModel::InvalidBitRange { at: *at, start: *start, end: *end },
            ModuleBuildError::EnumValueNotInteger(s) => BuildErrorModel::EnumValueNotInteger(*s),
            ModuleBuildError::VariantValueNegative(s) => BuildErrorModel::VariantValueNegative(*s),
            ModuleBuildError::NonPrimitiveEnumBase(a, b, s) =>
                BuildErrorModel::NonPrimitiveEnumBase(a@, b@, *s),
            ModuleBuildError::NonPrimitiveVariantBase(a, b, s) =>
                BuildErrorModel::NonPrimitiveVariantBase(a@, b@, *s),
            ModuleBuildError::UnexpectedToken { expected, found } =>
                BuildErrorModel::UnexpectedToken { expected: expected@, found: found@ },
            ModuleBuildError::UnexpectedEOF => BuildErrorModel::UnexpectedEOF,
            ModuleBuildError::Internal(m) => BuildErrorModel::Internal(m@),
        }
    }
}


// ---------------------------------------------------------------------------
// The type table
// ---------------------------------------------------------------------------
/// Index of the first item of `s`, from `i` on, that satisfies `p`.
pub open spec fn first_from<A>(s: Seq<A>, p: spec_fn(A) -> bool, i: int) -> Option<int>
    decreases s.len() - i,
{
    if i < 0 || i >= s.len() {
        None
    } else if p(s[i]) {
        Some(i)
    } else {
        first_from(s, p, i + 1)
    }
}

pub proof fn lemma_first_from<A>(s: Seq<A>, p: spec_fn(A) -> bool, i: int)
    requires
        0 <= i <= s.len(),
    ensures
        match first_from(s, p, i) {
            Some(k) => i <= k < s.len() && p(s[k]) && forall|j: int| i <= j < k ==> !p(#[trigger] s[j]),
            None => forall|j: int| i <= j < s.len() ==> !p(#[trigger] s[j]),
        },
    decreases s.len() - i,
{
    if i < s.len() && !p(s[i]) {
        lemma_first_from(s, p, i + 1);
    }
}

pub proof fn lemma_first_from_none<A>(s: Seq<A>, p: spec_fn(A) -> bool, i: int)
    requires
        0 <= i <= s.len(),
        forall|j: int| i <= j < s.len() ==> !p(#[trigger] s[j]),
    ensures
        first_from(s, p, i) is None,
    decreases s.len() - i,
{
    if i < s.len() {
        lemma_first_from_none(s, p, i + 1);
    }
}

/// A name entry: the name, its identifier and where it was first mentioned.
pub type NameModel = (Seq<char>, TypeID, Span);

/// The state of a module being built: its names, its definitions, and the next
/// identifier to hand out.
pub struct TableModel {
    pub names: Seq<NameModel>,
    pub types: Seq<(TypeID, TypeModel)>,
    pub last: nat,
}

pub open spec fn has_name(n: Seq<char>) -> spec_fn(NameModel) -> bool {
    |e: NameModel| e.0 == n
}

pub open spec fn names_tid(t: TypeID) -> spec_fn(NameModel) -> bool {
    |e: NameModel| e.1 == t
}

pub open spec fn defines(t: TypeID) -> spec_fn((TypeID, TypeModel)) -> bool {
    |e: (TypeID, TypeModel)| e.0 == t
}

pub open spec fn name_index(names: Seq<NameModel>, n: Seq<char>) -> Option<int> {
    first_from(names, has_name(n), 0)
}

pub open spec fn tid_name_index(names: Seq<NameModel>, t: TypeID) -> Option<int> {
    first_from(names, names_tid(t), 0)
}

pub open spec fn type_index(types: Seq<(TypeID, TypeModel)>, t: TypeID) -> Option<int> {
    first_from(types, defines(t), 0)
}

/// The table keeps its identifiers apart and below the next one to hand out.
pub open spec fn table_wf(m: TableModel) -> bool {
    &&& m.last <= u32::MAX
    &&& forall|i: int, j: int|
        0 <= i < j < m.names.len() ==> (#[trigger] m.names[i]).0 != (#[trigger] m.names[j]).0
            && m.names[i].1 != m.names[j].1
    &&& forall|i: int| 0 <= i < m.names.len() ==> (#[trigger] m.names[i]).1.0 < m.last
    &&& forall|i: int, j: int|
        0 <= i < j < m.types.len() ==> (#[trigger] m.types[i]).0 != (#[trigger] m.types[j]).0
    &&& forall|i: int| 0 <= i < m.types.len() ==> (#[trigger] m.types[i]).0.0 < m.last
}

/// Name and span of the identifier `t`, as errors report them.
pub open spec fn name_span_spec(m: TableModel, t: TypeID) -> Result<(Seq<char>, Span), BuildErrorModel> {
    match tid_name_index(m.names, t) {
        Some(i) => Ok((m.names[i].0, m.names[i].2)),
        None => Err(BuildErrorModel::UnknownType(t)),
    }
}

/// The definition of `t`, or the error for an identifier without one.
pub open spec fn lookup_spec(m: TableModel, t: TypeID) -> Result<TypeModel, BuildErrorModel> {
    match type_index(m.types, t) {
        Some(j) => Ok(m.types[j].1),
        None => match name_span_spec(m, t) {
            Ok((n, s)) => Err(BuildErrorModel::BadLookup(n, s)),
            Err(e) => Err(e),
        },
    }
}

/// The error for a type name that does not start with a letter or holds white space.
pub open spec fn name_problem(n: Seq<char>, at: Span) -> Option<BuildErrorModel> {
    if n.len() > 0 && !unicode_alphabetic(n[0]) {
        Some(BuildErrorModel::InvalidTypeName { at, reason: "types must start with alpha"@ })
    } else if exists|k: int| 0 <= k < n.len() && unicode_whitespace(#[trigger] n[k]) {
        Some(BuildErrorModel::InvalidTypeName { at, reason: "types must not contain whitespace"@ })
    } else {
        None
    }
}

/// `m` with the name `n` added under the next identifier.
pub open spec fn with_name(m: TableModel, n: Seq<char>, at: Span) -> TableModel {
    TableModel { names: m.names.push((n, TypeID(m.last as u32), at)), types: m.types, last: m.last + 1 }
}

/// The identifier of the name `n` (trimmed), allocating one on first mention.
pub open spec fn lookup_type_id_spec(m: TableModel, name: Seq<char>, at: Span) -> Result<
    (TableModel, TypeID),
    BuildErrorModel,
> {
    let n = trim(name);
    match name_problem(n, at) {
        Some(e) => Err(e),
        None => match name_index(m.names, n) {
            Some(i) => Ok((m, m.names[i].1)),
            None => Ok((with_name(m, n, at), TypeID(m.last as u32))),
        },
    }
}

/// What a duplicate definition reports about the earlier one.
pub open spec fn previous_text(s: Span) -> Seq<char> {
    match s {
        Span::Builtin => Seq::empty(),
        _ => " (previous definition at: "@ + span_text(s) + ")"@,
    }
}

/// The identifier for a name about to be defined; refuses a name already defined.
pub open spec fn install_type_id_spec(m: TableModel, name: Seq<char>, at: Span) -> Result<
    (TableModel, TypeID),
    BuildErrorModel,
> {
    let n = trim(name);
    match name_problem(n, at) {
        Some(e) => Err(e),
        None => match name_index(m.names, n) {
            Some(i) => match type_index(m.types, m.names[i].1) {
                Some(j) => Err(
                    BuildErrorModel::DuplicateTypeDefinition {
                        name: n,
                        at,
                        prev: previous_text(m.types[j].1.defined_at),
                    },
                ),
                None => Ok((m, m.names[i].1)),
            },
            None => Ok((with_name(m, n, at), TypeID(m.last as u32))),
        },
    }
}

/// `m` with the definition `t` of `id` added.
pub open spec fn with_type(m: TableModel, id: TypeID, t: TypeModel) -> TableModel {
    TableModel { names: m.names, types: m.types.push((id, t)), last: m.last }
}

pub open spec fn builtin_entry(i: int) -> (Seq<char>, Primitive) {
    if i == 0 {
        ("u8"@, Primitive::U8)
    } else if i == 1 {
        ("u16"@, Primitive::U16)
    } else if i == 2 {
        ("u32"@, Primitive::U32)
    } else if i == 3 {
        ("u64"@, Primitive::U64)
    } else if i == 4 {
        ("i8"@, Primitive::I8)
    } else if i == 5 {
        ("i16"@, Primitive::I16)
    } else if i == 6 {
        ("i32"@, Primitive::I32)
    } else if i == 7 {
        ("i64"@, Primitive::I64)
    } else if i == 8 {
        ("f32"@, Primitive::F32)
    } else {
        ("f64"@, Primitive::F64)
    }
}

pub proof fn lemma_builtin_names_distinct()
    ensures
        forall|i: int, j: int|
            0 <= i < 10 && 0 <= j < 10 && i != j ==> (#[trigger] builtin_entry(i)).0 != (
            #[trigger] builtin_entry(j)).0,
{
    reveal_strlit("u8");
    reveal_strlit("u16");
    reveal_strlit("u32");
    reveal_strlit("u64");
    reveal_strlit("i8");
    reveal_strlit("i16");
    reveal_strlit("i32");
    reveal_strlit("i64");
    reveal_strlit("f32");
    reveal_strlit("f64");
    assert("u8"@.len() == 2);
    assert("u16"@.len() == 3);
    assert("u32"@.len() == 3);
    assert("u64"@.len() == 3);
    assert("i8"@.len() == 2);
    assert("i16"@.len() == 3);
    assert("i32"@.len() == 3);
    assert("i64"@.len() == 3);
    assert("f32"@.len() == 3);
    assert("f64"@.len() == 3);
    assert forall|i: int, j: int|
        0 <= i < 10 && 0 <= j < 10 && i != j implies (#[trigger] builtin_entry(i)).0 != (
        #[trigger] builtin_entry(j)).0 by {
        let a = builtin_entry(i).0;
        let b = builtin_entry(j).0;
        if a.len() == b.len() {
            assert(a[0] != b[0] || a[1] != b[1] || a[a.len() - 1] != b[b.len() - 1]);
        }
    }
}

/// The table a module starts from: the ten primitives, with identifiers 0 to 9 in the
/// order `u8 u16 u32 u64 i8 i16 i32 i64 f32 f64`.
pub open spec fn builtin_table() -> TableModel {
    TableModel {
        names: Seq::new(10, |i: int| (builtin_entry(i).0, TypeID(i as u32), Span::Builtin)),
        types: Seq::new(
            10,
            |i: int|
                (
                    TypeID(i as u32),
                    TypeModel {
                        defined_at: Span::Builtin,
                        kind: KindModel::Primitive(builtin_entry(i).1),
                    },
                ),
        ),
        last: 10,
    }
}

pub open spec fn names_model(v: Seq<(String, TypeID, Span)>) -> Seq<NameModel> {
    v.map_values(|e: (String, TypeID, Span)| (e.0@, e.1, e.2))
}

pub open spec fn types_model(v: Seq<(TypeID, Type)>) -> Seq<(TypeID, TypeModel)> {
    v.map_values(|e: (TypeID, Type)| (e.0, e.1@))
}

/// A module whose type definitions are still being collected.
#[derive(Debug)]
pub struct PartialModule {
    pub name: String,
    type_map: Vec<(String, TypeID, Span)>,
    types: Vec<(TypeID, Type)>,
    last_tid: u32,
}

impl PartialModule {
    /// The model of the type table.
    pub closed spec fn table(&self) -> TableModel {
        TableModel {
            names: names_model(self.type_map@),
            types: types_model(self.types@),
            last: self.last_tid as nat,
        }
    }

    pub open spec fn wf(&self) -> bool {
        table_wf(self.table())
    }

    /// The module's name.
    pub closed spec fn name_model(&self) -> Seq<char> {
        self.name@
    }

    fn find_name(&self, n: &String) -> (r: Option<usize>)
        ensures
            match name_index(self.table().names, n@) {
                Some(i) => (r matches Some(j) && j == i) && 0 <= i < self.type_map@.len(),
                None => r is None,
            },
    {
        let ghost xs = self.table().names;
        let ghost p = has_name(n@);
        let mut i: usize = 0;
        while i < self.type_map.len()
            invariant
                xs == self.table().names,
                p == has_name(n@),
                xs.len() == self.type_map@.len(),
                i <= self.type_map@.len(),
                first_from(xs, p, 0) == first_from(xs, p, i as int),
            decreases self.type_map.len() - i,
        {
            if self.type_map[i].0 == *n {
                assert(p(xs[i as int]));
                return Some(i);
            }
            assert(!p(xs[i as int]));
            i = i + 1;
        }
        None
    }

    fn find_tid_name(&self, t: TypeID) -> (r: Option<usize>)
        ensures
            match tid_name_index(self.table().names, t) {
                Some(i) => (r matches Some(j) && j == i) && 0 <= i < self.type_map@.len(),
                None => r is None,
            },
    {
        let ghost xs = self.table().names;
        let ghost p = names_tid(t);
        let mut i: usize = 0;
        while i < self.type_map.len()
            invariant
                xs == self.table().names,
                p == names_tid(t),
                xs.len() == self.type_map@.len(),
                i <= self.type_map@.len(),
                first_from(xs, p, 0) == first_from(xs, p, i as int),
            decreases self.type_map.len() - i,
        {
            if self.type_map[i].1 == t {
                assert(p(xs[i as int]));
                return Some(i);
            }
            assert(!p(xs[i as int]));
            i = i + 1;
        }
        None
    }

    fn find_type(&self, t: TypeID) -> (r: Option<usize>)
        ensures
            match type_index(self.table().types, t) {
                Some(i) => (r matches Some(j) && j == i) && 0 <= i < self.types@.len(),
                None => r is None,
            },
    {
        let ghost xs = self.table().types;
        let ghost p = defines(t);
        let mut i: usize = 0;
        while i < self.types.len()
            invariant
                xs == self.table().types,
                p == defines(t),
                xs.len() == self.types@.len(),
                i <= self.types@.len(),
                first_from(xs, p, 0) == first_from(xs, p, i as int),
            decreases self.types.len() - i,
        {
            if self.types[i].0 == t {
                assert(p(xs[i as int]));
                return Some(i);
            }
            assert(!p(xs[i as int]));
            i = i + 1;
        }
        None
    }

    /// The name and first-mention span of the identifier `t`.
    pub fn name_and_span_for_tid(&self, t: TypeID) -> (r: Result<(&String, Span), ModuleBuildError>)
        ensures
            match (r, name_span_spec(self.table(), t)) {
                (Ok((n, s)), Ok((m, z))) => n@ == m && s == z,
                (Err(e), Err(f)) => e@ == f,
                _ => false,
            },
    {
        match self.find_tid_name(t) {
            Some(i) => {
                let ghost k = tid_name_index(self.table().names, t).unwrap();
                assert(k == i as int);
                assert(self.table().names[k] == (
                    self.type_map@[k].0@,
                    self.type_map@[k].1,
                    self.type_map@[k].2,
                ));
                let e = &self.type_map[i];
                Ok((&e.0, e.2))
            },
            None => Err(ModuleBuildError::UnknownType(t)),
        }
    }

    /// The definition of the identifier `t`.
    pub fn lookup(&self, t: TypeID) -> (r: Result<&Type, ModuleBuildError>)
        ensures
            match (r, lookup_spec(self.table(), t)) {
                (Ok(x), Ok(y)) => x@ == y,
                (Err(e), Err(f)) => e@ == f,
                _ => false,
            },
    {
        match self.find_type(t) {
            Some(j) => {
                let ghost k = type_index(self.table().types, t).unwrap();
                assert(k == j as int);
                assert(self.table().types[k] == (self.types@[k].0, self.types@[k].1@));
                let e = &self.types[j];
                Ok(&e.1)
            },
            None => match self.name_and_span_for_tid(t) {
                Ok((n, s)) => Err(ModuleBuildError::BadLookup(n.clone(), s)),
                Err(e) => Err(e),
            },
        }
    }

    /// All definitions collected so far, in the order they were made.
    pub fn all_types(&self) -> (r: &Vec<(TypeID, Type)>)
        ensures
            types_model(r@) == self.table().types,
    {
        &self.types
    }
}


/// `m` with `t` as the definition of `id`: it replaces an earlier definition of `id`,
/// or is added after the others.
pub open spec fn define_spec(m: TableModel, id: TypeID, t: TypeModel) -> TableModel {
    match type_index(m.types, id) {
        Some(j) => TableModel { names: m.names, types: m.types.update(j, (id, t)), last: m.last },
        None => with_type(m, id, t),
    }
}

/// `m` with a new nameless definition, and its identifier.
pub open spec fn anon_spec(m: TableModel, t: TypeModel) -> (TableModel, TypeID) {
    (
        TableModel { names: m.names, types: m.types.push((TypeID(m.last as u32), t)), last: m.last + 1 },
        TypeID(m.last as u32),
    )
}


pub proof fn lemma_with_name_wf(m: TableModel, n: Seq<char>, at: Span)
    requires
        table_wf(m),
        m.last < u32::MAX,
        name_index(m.names, n) is None,
    ensures
        table_wf(with_name(m, n, at)),
{
    lemma_first_from(m.names, has_name(n), 0);
    let m2 = with_name(m, n, at);
    assert forall|i: int, j: int| 0 <= i < j < m2.names.len() implies (#[trigger] m2.names[i]).0
        != (#[trigger] m2.names[j]).0 && m2.names[i].1 != m2.names[j].1 by {
        if j == m.names.len() {
            assert(!has_name(n)(m.names[i]));
        }
    }
}

/// A name that gets an identifier gets one below the next to hand out, and the table
/// stays well formed, with at most one identifier spent.
pub proof fn lemma_lookup_type_id(m: TableModel, name: Seq<char>, at: Span)
    requires
        table_wf(m),
        m.last < u32::MAX,
    ensures
        lookup_type_id_spec(m, name, at) matches Ok((m1, id)) ==> table_wf(m1) && m.last <= m1.last
            <= m.last + 1 && id.0 < m1.last && m1.types == m.types,
        install_type_id_spec(m, name, at) matches Ok((m1, id)) ==> table_wf(m1) && m.last
            <= m1.last <= m.last + 1 && id.0 < m1.last && m1.types == m.types,
{
    let n = trim(name);
    lemma_first_from(m.names, has_name(n), 0);
    if name_index(m.names, n) is None {
        lemma_with_name_wf(m, n, at);
    }
}

pub proof fn lemma_anon_wf(m: TableModel, t: TypeModel)
    requires
        table_wf(m),
        m.last < u32::MAX,
    ensures
        table_wf(anon_spec(m, t).0),
        anon_spec(m, t).0.last == m.last + 1,
        anon_spec(m, t).1.0 == m.last,
{
}

pub proof fn lemma_define_wf(m: TableModel, id: TypeID, t: TypeModel)
    requires
        table_wf(m),
        id.0 < m.last,
    ensures
        table_wf(define_spec(m, id, t)),
        define_spec(m, id, t).last == m.last,
{
    lemma_first_from(m.types, defines(id), 0);
    let m2 = define_spec(m, id, t);
    if type_index(m.types, id) is None {
        assert forall|i: int, k: int| 0 <= i < k < m2.types.len() implies (
        #[trigger] m2.types[i]).0 != (#[trigger] m2.types[k]).0 by {
            if k == m.types.len() {
                assert(!defines(id)(m.types[i]));
            }
        }
    }
}

/// `name` with surrounding white space removed.
fn trimmed(name: &str) -> (r: Vec<char>)
    ensures
        r@ == trim(name@),
{
    let v = chars_of(name);
    trim_chars(&v)
}

/// Refuses a type name that does not start with a letter or that holds white space.
fn validate_type_name(name: &Vec<char>, span: &Span) -> (r: Result<(), ModuleBuildError>)
    ensures
        match (r, name_problem(name@, *span)) {
            (Ok(_), None) => true,
            (Err(e), Some(f)) => e@ == f,
            _ => false,
        },
{
    if name.len() > 0 && !is_alphabetic(name[0]) {
        return Err(
            ModuleBuildError::InvalidTypeName {
                at: *span,
                reason: "types must start with alpha".to_string(),
            },
        );
    }
    let mut i: usize = 0;
    while i < name.len()
        invariant
            i <= name@.len(),
            name@.len() > 0 ==> unicode_alphabetic(name@[0]),
            forall|k: int| 0 <= k < i ==> !unicode_whitespace(#[trigger] name@[k]),
        decreases name.len() - i,
    {
        if is_whitespace(name[i]) {
            return Err(
                ModuleBuildError::InvalidTypeName {
                    at: *span,
                    reason: "types must not contain whitespace".to_string(),
                },
            );
        }
        i = i + 1;
    }
    Ok(())
}

impl PartialModule {
    /// Gives `n` (a checked, trimmed name) the next identifier.
    fn push_name(&mut self, n: Vec<char>, at: Span) -> (r: TypeID)
        requires
            old(self).wf(),
            old(self).table().last < u32::MAX,
            name_index(old(self).table().names, n@) is None,
        ensures
            final(self).table() == with_name(old(self).table(), n@, at),
            r == TypeID(old(self).table().last as u32),
            final(self).wf(),
            final(self).name_model() == old(self).name_model(),
    {
        proof {
            lemma_with_name_wf(self.table(), n@, at);
        }
        let id = TypeID(self.last_tid);
        let name = string_from_chars(&n);
        self.type_map.push((name, id, at));
        self.last_tid = self.last_tid + 1;
        assert(self.table().names =~= with_name(old(self).table(), n@, at).names);
        id
    }

    /// The identifier of the type name `name`, allocating one on first mention.
    pub fn lookup_type_id(&mut self, name: &str, span: &Span) -> (r: Result<TypeID, ModuleBuildError>)
        requires
            old(self).wf(),
            old(self).table().last < u32::MAX,
        ensures
            final(self).name_model() == old(self).name_model(),
            match (r, lookup_type_id_spec(old(self).table(), name@, *span)) {
                (Ok(id), Ok((m, jd))) => id == jd && final(self).table() == m && final(self).wf(),
                (Err(e), Err(f)) => e@ == f,
                _ => false,
            },
    {
        let n = trimmed(name);
        validate_type_name(&n, span)?;
        let s = string_from_chars(&n);
        match self.find_name(&s) {
            Some(i) => Ok(self.type_map[i].1),
            None => Ok(self.push_name(n, *span)),
        }
    }

    /// The identifier for the type name `name` that is about to be defined. Fails if the
    /// name already has a definition.
    pub fn install_type_id(&mut self, name: &str, span: &Span) -> (r: Result<TypeID, ModuleBuildError>)
        requires
            old(self).wf(),
            old(self).table().last < u32::MAX,
        ensures
            final(self).name_model() == old(self).name_model(),
            match (r, install_type_id_spec(old(self).table(), name@, *span)) {
                (Ok(id), Ok((m, jd))) => id == jd && final(self).table() == m && final(self).wf(),
                (Err(e), Err(f)) => e@ == f,
                _ => false,
            },
    {
        let n = trimmed(name);
        validate_type_name(&n, span)?;
        let s = string_from_chars(&n);
        match self.find_name(&s) {
            Some(i) => {
                let tid = self.type_map[i].1;
                match self.find_type(tid) {
                    Some(j) => {
                        let prev = match self.types[j].1.defined_at {
                            Span::Builtin => String::new(),
                            other => {
                                let mut p = " (previous definition at: ".to_string();
                                let t = other.text();
                                p.append(t.as_str());
                                p.append(")");
                                p
                            },
                        };
                        proof {
                            let k = type_index(self.table().types, tid).unwrap();
                            assert(self.table().types[k] == (self.types@[k].0, self.types@[k].1@));
                            assert(prev@ =~= previous_text(self.table().types[k].1.defined_at));
                        }
                        Err(ModuleBuildError::DuplicateTypeDefinition { name: s, at: *span, prev })
                    },
                    None => Ok(tid),
                }
            },
            None => Ok(self.push_name(n, *span)),
        }
    }

    /// Adds `ty` as a nameless definition under the next identifier.
    pub fn alloc_anon_type(&mut self, ty: Type) -> (r: TypeID)
        requires
            old(self).wf(),
            old(self).table().last < u32::MAX,
        ensures
            (final(self).table(), r) == anon_spec(old(self).table(), ty@),
            final(self).wf(),
            final(self).name_model() == old(self).name_model(),
    {
        let id = TypeID(self.last_tid);
        self.types.push((id, ty));
        self.last_tid = self.last_tid + 1;
        assert(self.table().types =~= anon_spec(old(self).table(), ty@).0.types);
        id
    }

    /// Makes `ty` the definition of `id`.
    pub fn define(&mut self, id: TypeID, ty: Type)
        requires
            old(self).wf(),
            id.0 < old(self).table().last,
        ensures
            final(self).table() == define_spec(old(self).table(), id, ty@),
            final(self).wf(),
            final(self).name_model() == old(self).name_model(),
    {
        let ghost m = self.table();
        proof {
            lemma_first_from(m.types, defines(id), 0);
        }
        match self.find_type(id) {
            Some(j) => {
                self.types.set(j, (id, ty));
                assert(self.table().types =~= define_spec(m, id, ty@).types);
            },
            None => {
                self.types.push((id, ty));
                assert(self.table().types =~= define_spec(m, id, ty@).types);
                assert forall|i: int, k: int|
                    0 <= i < k < self.table().types.len() implies (
                    #[trigger] self.table().types[i]).0 != (#[trigger] self.table().types[k]).0 by {
                    if k == m.types.len() {
                        assert(!defines(id)(m.types[i]));
                    }
                }
            },
        }
    }
}


impl PartialModule {
    /// Registers a built-in type under `name`, which must be new.
    fn install_builtin_type(&mut self, name: &str, ty: Type) -> (r: Result<TypeID, ModuleBuildError>)
        requires
            old(self).wf(),
            old(self).table().last < u32::MAX,
            name_index(old(self).table().names, name@) is None,
        ensures
            r == Ok::<TypeID, ModuleBuildError>(TypeID(old(self).table().last as u32)),
            final(self).table() == with_type(
                with_name(old(self).table(), name@, Span::Builtin),
                TypeID(old(self).table().last as u32),
                ty@,
            ),
            final(self).wf(),
            final(self).name_model() == old(self).name_model(),
    {
        let n = chars_of(name);
        let id = self.push_name(n, Span::Builtin);
        self.define(id, ty);
        proof {
            let m = with_name(old(self).table(), name@, Span::Builtin);
            lemma_first_from(m.types, defines(id), 0);
            assert(type_index(m.types, id) is None);
        }
        Ok(id)
    }

    /// Registers the ten primitive types.
    fn add_builtins(&mut self)
        requires
            old(self).table() == (TableModel { names: Seq::empty(), types: Seq::empty(), last: 0 }),
        ensures
            final(self).table() == builtin_table(),
            final(self).wf(),
            final(self).name_model() == old(self).name_model(),
    {
        proof {
            reveal_strlit("u8");
            reveal_strlit("u16");
            reveal_strlit("u32");
            reveal_strlit("u64");
            reveal_strlit("i8");
            reveal_strlit("i16");
            reveal_strlit("i32");
            reveal_strlit("i64");
            reveal_strlit("f32");
            reveal_strlit("f64");
        }
        let r = self.install_builtin_type(
            "u8",
            Type { defined_at: Span::Builtin, kind: TypeKind::Primitive(Primitive::U8) },
        );
        proof {
            assert(self.table().names =~= Seq::new(1, |i: int| (builtin_entry(i).0, TypeID(i as u32), Span::Builtin)));
        }
        proof {
            lemma_builtin_names_distinct();
            assert(builtin_entry(1).0 == "u16"@);
            lemma_first_from_none(self.table().names, has_name("u16"@), 0);
        }
        let r = self.install_builtin_type(
            "u16",
            Type { defined_at: Span::Builtin, kind: TypeKind::Primitive(Primitive::U16) },
        );
        proof {
            assert(self.table().names =~= Seq::new(2, |i: int| (builtin_entry(i).0, TypeID(i as u32), Span::Builtin)));
        }
        proof {
            lemma_builtin_names_distinct();
            assert(builtin_entry(2).0 == "u32"@);
            lemma_first_from_none(self.table().names, has_name("u32"@), 0);
        }
        let r = self.install_builtin_type(
            "u32",
            Type { defined_at: Span::Builtin, kind: TypeKind::Primitive(Primitive::U32) },
        );
        proof {
            assert(self.table().names =~= Seq::new(3, |i: int| (builtin_entry(i).0, TypeID(i as u32), Span::Builtin)));
        }
        proof {
            lemma_builtin_names_distinct();
            assert(builtin_entry(3).0 == "u64"@);
            lemma_first_from_none(self.table().names, has_name("u64"@), 0);
        }
        let r = self.install_builtin_type(
            "u64",
            Type { defined_at: Span::Builtin, kind: TypeKind::Primitive(Primitive::U64) },
        );
        proof {
            assert(self.table().names =~= Seq::new(4, |i: int| (builtin_entry(i).0, TypeID(i as u32), Span::Builtin)));
        }
        proof {
            lemma_builtin_names_distinct();
            assert(builtin_entry(4).0 == "i8"@);
            lemma_first_from_none(self.table().names, has_name("i8"@), 0);
        }
        let r = self.install_builtin_type(
            "i8",
            Type { defined_at: Span::Builtin, kind: TypeKind::Primitive(Primitive::I8) },
        );
        proof {
            assert(self.table().names =~= Seq::new(5, |i: int| (builtin_entry(i).0, TypeID(i as u32), Span::Builtin)));
        }
        proof {
            lemma_builtin_names_distinct();
            assert(builtin_entry(5).0 == "i16"@);
            lemma_first_from_none(self.table().names, has_name("i16"@), 0);
        }
        let r = self.install_builtin_type(
            "i16",
            Type { defined_at: Span::Builtin, kind: TypeKind::Primitive(Primitive::I16) },
        );
        proof {
            assert(self.table().names =~= Seq::new(6, |i: int| (builtin_entry(i).0, TypeID(i as u32), Span::Builtin)));
        }
        proof {
            lemma_builtin_names_distinct();
            assert(builtin_entry(6).0 == "i32"@);
            lemma_first_from_none(self.table().names, has_name("i32"@), 0);
        }
        let r = self.install_builtin_type(
            "i32",
            Type { defined_at: Span::Builtin, kind: TypeKind::Primitive(Primitive::I32) },
        );
        proof {
            assert(self.table().names =~= Seq::new(7, |i: int| (builtin_entry(i).0, TypeID(i as u32), Span::Builtin)));
        }
        proof {
            lemma_builtin_names_distinct();
            assert(builtin_entry(7).0 == "i64"@);
            lemma_first_from_none(self.table().names, has_name("i64"@), 0);
        }
        let r = self.install_builtin_type(
            "i64",
            Type { defined_at: Span::Builtin, kind: TypeKind::Primitive(Primitive::I64) },
        );
        proof {
            assert(self.table().names =~= Seq::new(8, |i: int| (builtin_entry(i).0, TypeID(i as u32), Span::Builtin)));
        }
        proof {
            lemma_builtin_names_distinct();
            assert(builtin_entry(8).0 == "f32"@);
            lemma_first_from_none(self.table().names, has_name("f32"@), 0);
        }
        let r = self.install_builtin_type(
            "f32",
            Type { defined_at: Span::Builtin, kind: TypeKind::Primitive(Primitive::F32) },
        );
        proof {
            assert(self.table().names =~= Seq::new(9, |i: int| (builtin_entry(i).0, TypeID(i as u32), Span::Builtin)));
        }
        proof {
            lemma_builtin_names_distinct();
            assert(builtin_entry(9).0 == "f64"@);
            lemma_first_from_none(self.table().names, has_name("f64"@), 0);
        }
        let r = self.install_builtin_type(
            "f64",
            Type { defined_at: Span::Builtin, kind: TypeKind::Primitive(Primitive::F64) },
        );
        proof {
            assert(self.table().names =~= Seq::new(10, |i: int| (builtin_entry(i).0, TypeID(i as u32), Span::Builtin)));
        }
        assert(self.table().types =~= builtin_table().types);
    }

    /// An empty module named `name` that knows the primitive types.
    fn with_builtins(name: String) -> (r: PartialModule)
        ensures
            r.table() == builtin_table(),
            r.wf(),
            r.name_model() == name@,
    {
        let mut m = PartialModule { name, type_map: Vec::new(), types: Vec::new(), last_tid: 0 };
        assert(m.table().names =~= Seq::<NameModel>::empty());
        assert(m.table().types =~= Seq::<(TypeID, TypeModel)>::empty());
        m.add_builtins();
        m
    }
}

} // verus!
