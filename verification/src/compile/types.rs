//! Compiled declarations: every type name resolved to a `TypeID`.
use vstd::prelude::*;

use crate::intermediate::ast::{enum_members_model, EnumMemberModel};
use crate::intermediate::source::LocationModel;
use crate::intermediate::{EnumMember, SourceLocation, TypeName};

verus! {

/// Identifier of a compiled type; ordered so that it can serve as a stable sort key.
#[derive(Debug, Clone, Copy, PartialEq, Eq, Hash, PartialOrd, Ord, Structural)]
pub struct TypeID(pub u32);

#[derive(Debug, Clone, Copy, PartialEq, Eq, Structural)]
pub enum BitWidth {
    W8,
    W16,
    W32,
    W64,
}

#[derive(Debug, Clone, Copy, PartialEq, Eq, Structural)]
pub enum Signedness {
    Unsigned,
    Signed,
}

#[derive(Debug, Clone, Copy, PartialEq, Eq, Structural)]
pub enum Datatype {
    Integer,
    Float,
}

/// A scalar of the language: `u8` ... `i64`, `f32`, `f64`.
#[derive(Debug, Clone, Copy, PartialEq, Eq, Structural)]
pub struct Primitive {
    pub width: BitWidth,
    pub sign: Signedness,
    pub dtype: Datatype,
}

/// Why an integer value is refused by a primitive.
#[derive(Debug, Clone, Copy, PartialEq, Eq, Structural)]
pub enum FitError {
    /// The primitive is a floating-point type.
    NotInteger,
    /// The value lies outside the primitive's range.
    OutOfRange,
}

impl Primitive {
    pub open spec fn bit_count(self) -> u32 {
        match self.width {
            BitWidth::W8 => 8,
            BitWidth::W16 => 16,
            BitWidth::W32 => 32,
            BitWidth::W64 => 64,
        }
    }

    /// Smallest value of an integer primitive.
    pub open spec fn min_value(self) -> int {
        match self.sign {
            Signedness::Unsigned => 0,
            Signedness::Signed => match self.width {
                BitWidth::W8 => i8::MIN as int,
                BitWidth::W16 => i16::MIN as int,
                BitWidth::W32 => i32::MIN as int,
                BitWidth::W64 => i64::MIN as int,
            },
        }
    }

    /// Largest value of an integer primitive.
    pub open spec fn max_value(self) -> int {
        match self.sign {
            Signedness::Unsigned => match self.width {
                BitWidth::W8 => u8::MAX as int,
                BitWidth::W16 => u16::MAX as int,
                BitWidth::W32 => u32::MAX as int,
                BitWidth::W64 => u64::MAX as int,
            },
            Signedness::Signed => match self.width {
                BitWidth::W8 => i8::MAX as int,
                BitWidth::W16 => i16::MAX as int,
                BitWidth::W32 => i32::MAX as int,
                BitWidth::W64 => i64::MAX as int,
            },
        }
    }

    /// The name of the primitive in the language (`u8`, `i32`, `f64`, ...).
    pub open spec fn spec_name(self) -> Seq<char> {
        let ts = match self.dtype {
            Datatype::Integer => match self.sign {
                Signedness::Unsigned => "u"@,
                Signedness::Signed => "i"@,
            },
            Datatype::Float => "f"@,
        };
        let w = match self.width {
            BitWidth::W8 => "8"@,
            BitWidth::W16 => "16"@,
            BitWidth::W32 => "32"@,
            BitWidth::W64 => "64"@,
        };
        ts + w
    }

    /// The bit width as a number.
    pub fn bits(&self) -> (r: u32)
        ensures
            r == self.bit_count(),
    {
        match self.width {
            BitWidth::W8 => 8,
            BitWidth::W16 => 16,
            BitWidth::W32 => 32,
            BitWidth::W64 => 64,
        }
    }

    /// Whether this primitive is exactly `u8`.
    pub fn is_u8(&self) -> (b: bool)
        ensures
            b == (self.width == BitWidth::W8 && self.sign == Signedness::Unsigned && self.dtype
                == Datatype::Integer),
    {
        match (self.width, self.sign, self.dtype) {
            (BitWidth::W8, Signedness::Unsigned, Datatype::Integer) => true,
            _ => false,
        }
    }

    /// Whether the primitive is an integer type.
    pub fn is_integer(&self) -> (b: bool)
        ensures
            b == (self.dtype == Datatype::Integer),
    {
        match self.dtype {
            Datatype::Integer => true,
            Datatype::Float => false,
        }
    }

    /// The range of an integer primitive, as `i128` bounds.
    fn int_bounds(&self) -> (r: (i128, i128))
        ensures
            r.0 == self.min_value(),
            r.1 == self.max_value(),
    {
        match (self.width, self.sign) {
            (BitWidth::W8, Signedness::Unsigned) => (0i128, 255i128),
            (BitWidth::W8, Signedness::Signed) => (-128i128, 127i128),
            (BitWidth::W16, Signedness::Unsigned) => (0i128, 65535i128),
            (BitWidth::W16, Signedness::Signed) => (-32768i128, 32767i128),
            (BitWidth::W32, Signedness::Unsigned) => (0i128, 4294967295i128),
            (BitWidth::W32, Signedness::Signed) => (-2147483648i128, 2147483647i128),
            (BitWidth::W64, Signedness::Unsigned) => (0i128, 18446744073709551615i128),
            (BitWidth::W64, Signedness::Signed) => (
                -9223372036854775808i128,
                9223372036854775807i128,
            ),
        }
    }

    /// Checks that an integer value is representable by this primitive.
    pub fn verify_can_fit(&self, v: i128) -> (r: Result<(), FitError>)
        ensures
            self.dtype == Datatype::Float ==> r == Err::<(), FitError>(FitError::NotInteger),
            self.dtype == Datatype::Integer ==> (r is Ok <==> self.min_value() <= v
                <= self.max_value()),
            self.dtype == Datatype::Integer && r is Err ==> r == Err::<(), FitError>(
                FitError::OutOfRange,
            ),
    {
        if !self.is_integer() {
            return Err(FitError::NotInteger);
        }
        let (lo, hi) = self.int_bounds();
        if v >= lo && v <= hi {
            Ok(())
        } else {
            Err(FitError::OutOfRange)
        }
    }

    /// The name of the primitive in the language (`u8`, `i32`, `f64`, ...).
    pub fn to_string(&self) -> (r: String)
        ensures
            r@ == self.spec_name(),
    {
        let ts = match self.dtype {
            Datatype::Integer => match self.sign {
                Signedness::Unsigned => "u",
                Signedness::Signed => "i",
            },
            Datatype::Float => "f",
        };
        let w = match self.width {
            BitWidth::W8 => "8",
            BitWidth::W16 => "16",
            BitWidth::W32 => "32",
            BitWidth::W64 => "64",
        };
        crate::text::concat(ts, w)
    }
}

#[derive(Debug, PartialEq)]
pub struct StructMember {
    pub name: String,
    pub ty: TypeID,
    pub defined_at: SourceLocation,
}

pub struct StructMemberModel {
    pub name: Seq<char>,
    pub ty: TypeID,
    pub defined_at: LocationModel,
}

impl View for StructMember {
    type V = StructMemberModel;

    open spec fn view(&self) -> StructMemberModel {
        StructMemberModel { name: self.name@, ty: self.ty, defined_at: self.defined_at@ }
    }
}

/// Plain-old-data aggregate with C-like layout.
#[derive(Debug, PartialEq)]
pub struct Pack {
    pub members: Vec<StructMember>,
}

/// Enum with an explicit primitive underlying type.
#[derive(Debug, PartialEq)]
pub struct Enum {
    pub underlying: TypeID,
    pub members: Vec<EnumMember>,
    pub default: Option<EnumMember>,
}

/// An inclusive range of bit positions.
#[derive(Debug, Clone, Copy, PartialEq, Eq, Structural)]
pub struct BitRange {
    pub start: u32,
    pub end: u32,
}

#[derive(Debug, PartialEq)]
pub struct BitfldMember {
    pub name: String,
    pub underlying: TypeID,
    pub range: BitRange,
    pub defined_at: SourceLocation,
}

pub struct BitfldMemberModel {
    pub name: Seq<char>,
    pub underlying: TypeID,
    pub range: BitRange,
    pub defined_at: LocationModel,
}

impl View for BitfldMember {
    type V = BitfldMemberModel;

    open spec fn view(&self) -> BitfldMemberModel {
        BitfldMemberModel {
            name: self.name@,
            underlying: self.underlying,
            range: self.range,
            defined_at: self.defined_at@,
        }
    }
}

/// Bitfield backed by an integer/enum type with named bit ranges.
#[derive(Debug, PartialEq)]
pub struct Bitfld {
    pub underlying: TypeID,
    pub members: Vec<BitfldMember>,
}

#[derive(Debug, PartialEq)]
pub struct VariantMember {
    pub ty: TypeID,
    pub value: u64,
    pub defined_at: SourceLocation,
}

pub struct VariantMemberModel {
    pub ty: TypeID,
    pub value: u64,
    pub defined_at: LocationModel,
}

impl View for VariantMember {
    type V = VariantMemberModel;

    open spec fn view(&self) -> VariantMemberModel {
        VariantMemberModel { ty: self.ty, value: self.value, defined_at: self.defined_at@ }
    }
}

/// Tagged union where the discriminant has a primitive integer type.
#[derive(Debug, PartialEq)]
pub struct Variant {
    pub discriminant: TypeID,
    pub members: Vec<VariantMember>,
}

/// Sequence of named fields (a typical record/struct).
#[derive(Debug, PartialEq)]
pub struct Sequence {
    pub members: Vec<StructMember>,
}

/// Another name for a type.
#[derive(Debug, PartialEq)]
pub struct Alias {
    pub other: TypeID,
}

/// Array whose length is stored before its elements.
#[derive(Debug, PartialEq)]
pub struct DynamicArray {
    pub size_type: TypeID,
    pub value_type: TypeID,
}

/// Array with a length fixed by the declaration.
#[derive(Debug, PartialEq)]
pub struct FixedArray {
    pub count: u64,
    pub value_type: TypeID,
}

/// A named constant of a primitive type.
#[derive(Debug, PartialEq)]
pub struct Const {
    pub ty: TypeID,
    pub value: i64,
}

#[derive(Debug, PartialEq)]
pub enum TypeKind {
    Alias(Alias),
    Pack(Pack),
    Enum(Enum),
    Bitfld(Bitfld),
    Variant(Variant),
    Sequence(Sequence),
    DynamicArray(DynamicArray),
    FixedArray(FixedArray),
    Const(Const),
    Primitive(Primitive),
    Void,
}

pub enum KindModel {
    Alias { other: TypeID },
    Pack { members: Seq<StructMemberModel> },
    Enum { underlying: TypeID, members: Seq<EnumMemberModel>, default: Option<EnumMemberModel> },
    Bitfld { underlying: TypeID, members: Seq<BitfldMemberModel> },
    Variant { discriminant: TypeID, members: Seq<VariantMemberModel> },
    Sequence { members: Seq<StructMemberModel> },
    DynamicArray { size_type: TypeID, value_type: TypeID },
    FixedArray { count: u64, value_type: TypeID },
    Const { ty: TypeID, value: i64 },
    Primitive { primitive: Primitive },
    Void,
}

pub open spec fn struct_members_model(v: Seq<StructMember>) -> Seq<StructMemberModel> {
    v.map_values(|m: StructMember| m@)
}

pub open spec fn bitfld_members_model(v: Seq<BitfldMember>) -> Seq<BitfldMemberModel> {
    v.map_values(|m: BitfldMember| m@)
}

pub open spec fn variant_members_model(v: Seq<VariantMember>) -> Seq<VariantMemberModel> {
    v.map_values(|m: VariantMember| m@)
}

pub open spec fn opt_enum_member(o: Option<EnumMember>) -> Option<EnumMemberModel> {
    match o {
        Some(m) => Some(m@),
        None => None,
    }
}

impl View for TypeKind {
    type V = KindModel;

    open spec fn view(&self) -> KindModel {
        match self {
            TypeKind::Alias(a) => KindModel::Alias { other: a.other },
            TypeKind::Pack(p) => KindModel::Pack { members: struct_members_model(p.members@) },
            TypeKind::Enum(e) => KindModel::Enum {
                underlying: e.underlying,
                members: enum_members_model(e.members@),
                default: opt_enum_member(e.default),
            },
            TypeKind::Bitfld(b) => KindModel::Bitfld {
                underlying: b.underlying,
                members: bitfld_members_model(b.members@),
            },
            TypeKind::Variant(v) => KindModel::Variant {
                discriminant: v.discriminant,
                members: variant_members_model(v.members@),
            },
            TypeKind::Sequence(s) => KindModel::Sequence {
                members: struct_members_model(s.members@),
            },
            TypeKind::DynamicArray(d) => KindModel::DynamicArray {
                size_type: d.size_type,
                value_type: d.value_type,
            },
            TypeKind::FixedArray(f) => KindModel::FixedArray {
                count: f.count,
                value_type: f.value_type,
            },
            TypeKind::Const(c) => KindModel::Const { ty: c.ty, value: c.value },
            TypeKind::Primitive(p) => KindModel::Primitive { primitive: *p },
            TypeKind::Void => KindModel::Void,
        }
    }
}

/// A compiled declaration.
#[derive(Debug, PartialEq)]
pub struct Type {
    pub ident: TypeName,
    pub defined_at: SourceLocation,
    pub kind: TypeKind,
}

pub struct TypeModel {
    pub ident: Seq<char>,
    pub defined_at: LocationModel,
    pub kind: KindModel,
}

impl View for Type {
    type V = TypeModel;

    open spec fn view(&self) -> TypeModel {
        TypeModel { ident: self.ident@, defined_at: self.defined_at@, kind: self.kind@ }
    }
}

pub open spec fn defs_model(v: Seq<(TypeID, Type)>) -> Seq<(TypeID, TypeModel)> {
    v.map_values(|d: (TypeID, Type)| (d.0, d.1@))
}

/// Position of the first definition at or after `i` with identifier `id` (the length
/// when there is none).
pub open spec fn def_index_from(defs: Seq<(TypeID, TypeModel)>, id: TypeID, i: int) -> int
    decreases defs.len() - i,
{
    if i < 0 || i >= defs.len() {
        defs.len() as int
    } else if defs[i].0 == id {
        i
    } else {
        def_index_from(defs, id, i + 1)
    }
}

pub open spec fn def_index(defs: Seq<(TypeID, TypeModel)>, id: TypeID) -> int {
    def_index_from(defs, id, 0)
}

pub open spec fn has_id(defs: Seq<(TypeID, TypeModel)>, id: TypeID) -> bool {
    def_index(defs, id) < defs.len()
}

/// The definition with identifier `id` (meaningful when there is one).
pub open spec fn def_of(defs: Seq<(TypeID, TypeModel)>, id: TypeID) -> TypeModel {
    defs[def_index(defs, id)].1
}

/// Position of the first definition at or after `i` named `name` (the length when there
/// is none).
pub open spec fn name_index_from(defs: Seq<(TypeID, TypeModel)>, name: Seq<char>, i: int) -> int
    decreases defs.len() - i,
{
    if i < 0 || i >= defs.len() {
        defs.len() as int
    } else if defs[i].1.ident == name {
        i
    } else {
        name_index_from(defs, name, i + 1)
    }
}

pub open spec fn def_index_by_name(defs: Seq<(TypeID, TypeModel)>, name: Seq<char>) -> int {
    name_index_from(defs, name, 0)
}

/// No two definitions share an identifier.
pub open spec fn distinct_ids(defs: Seq<(TypeID, TypeModel)>) -> bool {
    forall|i: int, j: int| 0 <= i < j < defs.len() ==> defs[i].0 != defs[j].0
}

pub proof fn lemma_def_index_from(defs: Seq<(TypeID, TypeModel)>, id: TypeID, i: int)
    requires
        0 <= i <= defs.len(),
    ensures
        i <= def_index_from(defs, id, i) <= defs.len(),
        def_index_from(defs, id, i) < defs.len() ==> defs[def_index_from(defs, id, i)].0 == id,
        forall|j: int| i <= j < def_index_from(defs, id, i) ==> defs[j].0 != id,
    decreases defs.len() - i,
{
    if i < defs.len() && defs[i].0 != id {
        lemma_def_index_from(defs, id, i + 1);
    }
}

/// The definition index of an identifier is the position at which it occurs.
pub proof fn lemma_def_index(defs: Seq<(TypeID, TypeModel)>, id: TypeID)
    ensures
        0 <= def_index(defs, id) <= defs.len(),
        has_id(defs, id) ==> defs[def_index(defs, id)].0 == id,
        forall|j: int| 0 <= j < def_index(defs, id) ==> defs[j].0 != id,
        has_id(defs, id) <==> exists|j: int| 0 <= j < defs.len() && defs[j].0 == id,
{
    lemma_def_index_from(defs, id, 0);
}

/// A compiled module: its definitions, an order in which each type comes after the
/// types its layout depends on, and the module's name.
#[derive(Debug)]
pub struct World {
    definitions: Vec<(TypeID, Type)>,
    sorted: Vec<TypeID>,
    module_name: String,
}

pub struct WorldModel {
    pub defs: Seq<(TypeID, TypeModel)>,
    pub sorted: Seq<TypeID>,
    pub module_name: Seq<char>,
}

impl View for World {
    type V = WorldModel;

    closed spec fn view(&self) -> WorldModel {
        WorldModel {
            defs: defs_model(self.definitions@),
            sorted: self.sorted@,
            module_name: self.module_name@,
        }
    }
}

impl World {
    /// Assembles a world from its parts.
    pub fn new(definitions: Vec<(TypeID, Type)>, sorted: Vec<TypeID>, module_name: String) -> (r:
        World)
        ensures
            r@ == (WorldModel { defs: defs_model(definitions@), sorted: sorted@, module_name: module_name@ }),
    {
        World { definitions, sorted, module_name }
    }

    /// The definitions with their identifiers.
    pub fn definitions(&self) -> (r: &Vec<(TypeID, Type)>)
        ensures
            defs_model(r@) == self@.defs,
    {
        &self.definitions
    }

    /// The identifiers in dependency order.
    pub fn sorted(&self) -> (r: &Vec<TypeID>)
        ensures
            r@ == self@.sorted,
    {
        &self.sorted
    }

    /// The module name from the parsed input.
    pub fn module_name(&self) -> (r: &str)
        ensures
            r@ == self@.module_name,
    {
        self.module_name.as_str()
    }

    /// Looks up a type by its identifier.
    pub fn lookup(&self, id: TypeID) -> (r: &Type)
        requires
            has_id(self@.defs, id),
        ensures
            r@ == def_of(self@.defs, id),
    {
        let ghost defs = self@.defs;
        let mut i: usize = 0;
        let n = self.definitions.len();
        proof {
            lemma_def_index(defs, id);
        }
        while i < n
            invariant
                n == self.definitions@.len(),
                defs == self@.defs,
                defs == defs_model(self.definitions@),
                i <= def_index(defs, id) < n,
                def_index(defs, id) == def_index_from(defs, id, i as int),
            decreases n - i,
        {
            assert(defs[i as int] == (self.definitions@[i as int].0, self.definitions@[i as int].1@));
            if self.definitions[i].0 == id {
                return &self.definitions[i].1;
            }
            proof {
                lemma_def_index_from(defs, id, i as int + 1);
            }
            i = i + 1;
        }
        &self.definitions[0].1
    }

    /// The definitions in dependency order, each with its identifier; identifiers of the
    /// order that have no definition are skipped.
    pub fn iter(&self) -> (r: Vec<(TypeID, &Type)>)
        ensures
            r@.len() == self@.sorted.filter(|id: TypeID| has_id(self@.defs, id)).len(),
            forall|k: int|
                0 <= k < r@.len() ==> {
                    let id = self@.sorted.filter(|id: TypeID| has_id(self@.defs, id))[k];
                    &&& (#[trigger] r@[k]).0 == id
                    &&& r@[k].1@ == def_of(self@.defs, id)
                },
    {
        let ghost keep = |id: TypeID| has_id(self@.defs, id);
        let mut out: Vec<(TypeID, &Type)> = Vec::new();
        let mut i: usize = 0;
        while i < self.sorted.len()
            invariant
                i <= self.sorted@.len(),
                keep == (|id: TypeID| has_id(self@.defs, id)),
                out@.len() == self.sorted@.take(i as int).filter(keep).len(),
                forall|k: int|
                    0 <= k < out@.len() ==> {
                        let id = self.sorted@.take(i as int).filter(keep)[k];
                        &&& (#[trigger] out@[k]).0 == id
                        &&& out@[k].1@ == def_of(self@.defs, id)
                    },
            decreases self.sorted.len() - i,
        {
            let id = self.sorted[i];
            proof {
                assert(self.sorted@.take(i as int + 1) =~= self.sorted@.take(i as int).push(id));
                self.sorted@.take(i as int).lemma_filter_push(id, keep);
            }
            if self.contains(id) {
                out.push((id, self.lookup(id)));
            }
            i = i + 1;
        }
        assert(self.sorted@.take(i as int) =~= self.sorted@);
        out
    }

    /// Whether some definition has identifier `id`.
    pub fn contains(&self, id: TypeID) -> (b: bool)
        ensures
            b == has_id(self@.defs, id),
    {
        let ghost defs = self@.defs;
        let mut i: usize = 0;
        let n = self.definitions.len();
        while i < n
            invariant
                n == self.definitions@.len(),
                defs == self@.defs,
                defs == defs_model(self.definitions@),
                i <= n,
                def_index(defs, id) == def_index_from(defs, id, i as int),
            decreases n - i,
        {
            assert(defs[i as int] == (self.definitions@[i as int].0, self.definitions@[i as int].1@));
            if self.definitions[i].0 == id {
                return true;
            }
            i = i + 1;
        }
        false
    }
}

} // verus!
