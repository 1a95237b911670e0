//! Declarations as parsed from the source, before names are resolved.
use std::sync::Arc;

use vstd::prelude::*;

use super::error::IntermediateError;
use super::source::{arc_clone, LocationModel, SourceLocation};
use crate::strings::{trim, trim_chars};
use crate::text::{is_alpha, is_digit, string_from_chars};

verus! {

/// Name of a type as written in the source.
#[derive(Debug, Hash, PartialEq, Eq)]
pub struct TypeName(Arc<String>);

impl Clone for TypeName {
    fn clone(&self) -> (r: TypeName)
        ensures
            r == *self,
    {
        TypeName(arc_clone(&self.0))
    }
}

impl View for TypeName {
    type V = Seq<char>;

    closed spec fn view(&self) -> Seq<char> {
        (*self.0)@
    }
}

pub open spec fn legal_typename_char(c: char) -> bool {
    is_alpha(c) || is_digit(c) || c == '_'
}

/// The first character of `s` that may not appear in a type name.
pub open spec fn first_illegal(s: Seq<char>) -> Option<char>
    decreases s.len(),
{
    if s.len() == 0 {
        None
    } else if !legal_typename_char(s[0]) {
        Some(s[0])
    } else {
        first_illegal(s.drop_first())
    }
}

pub fn is_legal_typename_char(c: char) -> (b: bool)
    ensures
        b == legal_typename_char(c),
{
    ('a' <= c && c <= 'z') || ('A' <= c && c <= 'Z') || ('0' <= c && c <= '9') || c == '_'
}

impl TypeName {
    /// The name as a string slice.
    pub fn as_str(&self) -> (r: &str)
        ensures
            r@ == self@,
    {
        self.0.as_str()
    }

    /// Whether two names are spelled the same.
    pub fn same(&self, other: &TypeName) -> (b: bool)
        ensures
            b == (self@ == other@),
    {
        let a: &String = &self.0;
        let b: &String = &other.0;
        *a == *b
    }

    /// Creates a `TypeName` from `x` with the white space around it trimmed, refusing any
    /// character of what is left outside `[A-Za-z0-9_]`.
    pub fn from_string(line: SourceLocation, x: &str) -> (r: Result<Self, IntermediateError>)
        ensures
            match first_illegal(trim(x@)) {
                Some(c) => (r matches Err(e) && e@ == super::error::ErrorModel::IllegalChar {
                    line: line@,
                    reason: c,
                }),
                None => (r matches Ok(t) && t@ == trim(x@)),
            },
    {
        let v = crate::text::chars_of(x);
        let trimmed = trim_chars(&v);
        Self::from_chars(line, &trimmed)
    }

    /// Creates a `TypeName` from characters, refusing any character outside `[A-Za-z0-9_]`.
    pub fn from_chars(line: SourceLocation, x: &Vec<char>) -> (r: Result<Self, IntermediateError>)
        ensures
            match first_illegal(x@) {
                Some(c) => (r matches Err(e) && e@ == super::error::ErrorModel::IllegalChar {
                    line: line@,
                    reason: c,
                }),
                None => (r matches Ok(t) && t@ == x@),
            },
    {
        let mut i: usize = 0;
        assert(x@.skip(0) =~= x@);
        while i < x.len()
            invariant
                i <= x@.len(),
                first_illegal(x@) == first_illegal(x@.skip(i as int)),
            decreases x.len() - i,
        {
            proof {
                assert(x@.skip(i as int).drop_first() =~= x@.skip(i as int + 1));
            }
            if !is_legal_typename_char(x[i]) {
                return Err(IntermediateError::IllegalChar { line, reason: x[i] });
            }
            i = i + 1;
        }
        proof {
            assert(x@.skip(i as int) =~= Seq::<char>::empty());
        }
        Ok(TypeName(Arc::new(string_from_chars(x))))
    }
}

#[derive(Debug)]
pub struct StructMember {
    pub name: String,
    pub ty: TypeName,
    pub defined_at: SourceLocation,
}

pub struct StructMemberModel {
    pub name: Seq<char>,
    pub ty: Seq<char>,
    pub defined_at: LocationModel,
}

impl View for StructMember {
    type V = StructMemberModel;

    open spec fn view(&self) -> StructMemberModel {
        StructMemberModel { name: self.name@, ty: self.ty@, defined_at: self.defined_at@ }
    }
}

/// Plain-old-data aggregate with C-like layout.
#[derive(Debug)]
pub struct Pack {
    pub members: Vec<StructMember>,
}

#[derive(Debug, PartialEq)]
pub struct EnumMember {
    pub name: String,
    pub value: i64,
    pub defined_at: SourceLocation,
}

impl Clone for EnumMember {
    fn clone(&self) -> (r: EnumMember)
        ensures
            r@ == self@,
    {
        EnumMember {
            name: self.name.clone(),
            value: self.value,
            defined_at: self.defined_at.clone(),
        }
    }
}

pub struct EnumMemberModel {
    pub name: Seq<char>,
    pub value: i64,
    pub defined_at: LocationModel,
}

impl View for EnumMember {
    type V = EnumMemberModel;

    open spec fn view(&self) -> EnumMemberModel {
        EnumMemberModel { name: self.name@, value: self.value, defined_at: self.defined_at@ }
    }
}

/// Enum with an explicit primitive underlying type.
#[derive(Debug)]
pub struct Enum {
    pub ty: TypeName,
    pub members: Vec<EnumMember>,
    pub default: Option<EnumMember>,
}

#[derive(Debug)]
pub struct BitfldMember {
    pub name: String,
    pub ty: TypeName,
    pub range: String,
    pub defined_at: SourceLocation,
}

pub struct BitfldMemberModel {
    pub name: Seq<char>,
    pub ty: Seq<char>,
    pub range: Seq<char>,
    pub defined_at: LocationModel,
}

impl View for BitfldMember {
    type V = BitfldMemberModel;

    open spec fn view(&self) -> BitfldMemberModel {
        BitfldMemberModel {
            name: self.name@,
            ty: self.ty@,
            range: self.range@,
            defined_at: self.defined_at@,
        }
    }
}

/// Bitfield backed by an integer/enum type with named bit ranges.
#[derive(Debug)]
pub struct Bitfld {
    pub ty: TypeName,
    pub members: Vec<BitfldMember>,
}

#[derive(Debug)]
pub struct VariantMember {
    pub ty: TypeName,
    pub value: u64,
    pub defined_at: SourceLocation,
}

pub struct VariantMemberModel {
    pub ty: Seq<char>,
    pub value: u64,
    pub defined_at: LocationModel,
}

impl View for VariantMember {
    type V = VariantMemberModel;

    open spec fn view(&self) -> VariantMemberModel {
        VariantMemberModel { ty: self.ty@, value: self.value, defined_at: self.defined_at@ }
    }
}

/// Tagged union whose discriminant has a primitive integer type.
#[derive(Debug)]
pub struct Variant {
    pub ty: TypeName,
    pub members: Vec<VariantMember>,
}

/// Sequence of named fields (a record decoded field by field).
#[derive(Debug)]
pub struct Sequence {
    pub members: Vec<StructMember>,
}

/// Another name for an existing type.
#[derive(Debug)]
pub struct Alias {
    pub other: TypeName,
}

/// Variably sized array: a count of type `size_type`, then that many values.
#[derive(Debug)]
pub struct DynamicArray {
    pub size_type: TypeName,
    pub value_type: TypeName,
}

/// Fixed-size contiguous array.
#[derive(Debug)]
pub struct FixedArray {
    pub count: u64,
    pub value_type: TypeName,
}

/// A named integer constant of a primitive type: `const NAME : Type = value`.
#[derive(Debug)]
pub struct Const {
    pub ty: TypeName,
    pub value: i64,
}

#[derive(Debug)]
pub enum TypeKind {
    Alias(Alias),
    Pack(Pack),
    Enum(Enum),
    Bitfld(Bitfld),
    Variant(Variant),
    Sequence(Sequence),
    DynamicArray(DynamicArray),
    FixedArray(FixedArray),
    Const(Const),
}

/// Model of a declaration body.
pub enum KindModel {
    Alias { other: Seq<char> },
    Pack { members: Seq<StructMemberModel> },
    Enum { ty: Seq<char>, members: Seq<EnumMemberModel>, default: Option<EnumMemberModel> },
    Bitfld { ty: Seq<char>, members: Seq<BitfldMemberModel> },
    Variant { ty: Seq<char>, members: Seq<VariantMemberModel> },
    Sequence { members: Seq<StructMemberModel> },
    DynamicArray { size_type: Seq<char>, value_type: Seq<char> },
    FixedArray { count: u64, value_type: Seq<char> },
    Const { ty: Seq<char>, value: i64 },
}

pub open spec fn struct_members_model(v: Seq<StructMember>) -> Seq<StructMemberModel> {
    v.map_values(|m: StructMember| m@)
}

pub open spec fn enum_members_model(v: Seq<EnumMember>) -> Seq<EnumMemberModel> {
    v.map_values(|m: EnumMember| m@)
}

pub open spec fn bitfld_members_model(v: Seq<BitfldMember>) -> Seq<BitfldMemberModel> {
    v.map_values(|m: BitfldMember| m@)
}

pub open spec fn variant_members_model(v: Seq<VariantMember>) -> Seq<VariantMemberModel> {
    v.map_values(|m: VariantMember| m@)
}

impl View for TypeKind {
    type V = KindModel;

    open spec fn view(&self) -> KindModel {
        match self {
            TypeKind::Alias(a) => KindModel::Alias { other: a.other@ },
            TypeKind::Pack(p) => KindModel::Pack { members: struct_members_model(p.members@) },
            TypeKind::Enum(e) => KindModel::Enum {
                ty: e.ty@,
                members: enum_members_model(e.members@),
                default: match e.default {
                    Some(d) => Some(d@),
                    None => None,
                },
            },
            TypeKind::Bitfld(b) => KindModel::Bitfld {
                ty: b.ty@,
                members: bitfld_members_model(b.members@),
            },
            TypeKind::Variant(v) => KindModel::Variant {
                ty: v.ty@,
                members: variant_members_model(v.members@),
            },
            TypeKind::Sequence(s) => KindModel::Sequence {
                members: struct_members_model(s.members@),
            },
            TypeKind::DynamicArray(d) => KindModel::DynamicArray {
                size_type: d.size_type@,
                value_type: d.value_type@,
            },
            TypeKind::FixedArray(f) => KindModel::FixedArray {
                count: f.count,
                value_type: f.value_type@,
            },
            TypeKind::Const(c) => KindModel::Const { ty: c.ty@, value: c.value },
        }
    }
}

/// A named declaration.
#[derive(Debug)]
pub struct Type {
    pub ident: TypeName,
    pub defined_at: SourceLocation,
    pub kind: TypeKind,
}

pub struct TypeModel {
    pub ident: Seq<char>,
    pub defined_at: LocationModel,
    pub kind: KindModel,
}

impl View for Type {
    type V = TypeModel;

    open spec fn view(&self) -> TypeModel {
        TypeModel { ident: self.ident@, defined_at: self.defined_at@, kind: self.kind@ }
    }
}

/// A parsed source file.
#[derive(Debug)]
pub struct Module {
    pub name: String,
    pub source: String,
    pub imports: Vec<Import>,
    pub definitions: Vec<Type>,
}

/// `from "path" use {A, B}` or `from "path" use *`.
#[derive(Debug)]
pub struct Import {
    pub path: String,
    pub import_all: bool,
    pub types: Vec<TypeName>,
    pub defined_at: SourceLocation,
}

impl Clone for Import {
    fn clone(&self) -> (r: Import)
        ensures
            r@ == self@,
    {
        let mut types: Vec<TypeName> = Vec::new();
        let mut i: usize = 0;
        while i < self.types.len()
            invariant
                i <= self.types@.len(),
                types@.len() == i,
                forall|k: int| 0 <= k < i ==> types@[k]@ == self.types@[k]@,
            decreases self.types.len() - i,
        {
            types.push(self.types[i].clone());
            i = i + 1;
        }
        let r = Import {
            path: self.path.clone(),
            import_all: self.import_all,
            types,
            defined_at: self.defined_at.clone(),
        };
        assert(r@.types =~= self@.types);
        r
    }
}

pub open spec fn type_names_model(v: Seq<TypeName>) -> Seq<Seq<char>> {
    v.map_values(|t: TypeName| t@)
}

pub open spec fn imports_model(v: Seq<Import>) -> Seq<ImportModel> {
    v.map_values(|i: Import| i@)
}

pub open spec fn types_model(v: Seq<Type>) -> Seq<TypeModel> {
    v.map_values(|t: Type| t@)
}

pub struct ImportModel {
    pub path: Seq<char>,
    pub import_all: bool,
    pub types: Seq<Seq<char>>,
    pub defined_at: LocationModel,
}

impl View for Import {
    type V = ImportModel;

    open spec fn view(&self) -> ImportModel {
        ImportModel {
            path: self.path@,
            import_all: self.import_all,
            types: type_names_model(self.types@),
            defined_at: self.defined_at@,
        }
    }
}

pub struct ModuleModel {
    pub name: Seq<char>,
    pub source: Seq<char>,
    pub imports: Seq<ImportModel>,
    pub definitions: Seq<TypeModel>,
}

impl View for Module {
    type V = ModuleModel;

    open spec fn view(&self) -> ModuleModel {
        ModuleModel {
            name: self.name@,
            source: self.source@,
            imports: imports_model(self.imports@),
            definitions: types_model(self.definitions@),
        }
    }
}

} // verus!
