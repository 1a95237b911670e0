//! Name resolution: turns parsed declarations into compiled ones.
use vstd::prelude::*;

use super::error::{CompileError, ErrorModel};
use super::types::{
    bitfld_members_model, struct_members_model, variant_members_model, Alias, BitRange, Bitfld,
    BitfldMember, Const, DynamicArray, Enum, FixedArray, KindModel, Pack, Sequence, StructMember, Type,
    TypeID, TypeKind, TypeModel, Variant, VariantMember,
};
use crate::intermediate;
use crate::intermediate::ast::{
    BitfldMemberModel as IBitfldMemberModel, KindModel as IKindModel,
    StructMemberModel as IStructMemberModel, TypeModel as ITypeModel,
    VariantMemberModel as IVariantMemberModel,
};
use crate::intermediate::TypeName;
use crate::strings::{find, find_char_from, lemma_find_from, parse_u32, parse_u32_spec, slice_chars, IntErrorKind};
use crate::text::{chars_of, concat, string_from_chars};

verus! {

/// Hands out consecutive identifiers.
pub struct TypeIDAllocator {
    last: u32,
}

impl TypeIDAllocator {
    pub closed spec fn next_id(&self) -> u32 {
        self.last
    }

    /// An allocator whose first identifier is 0.
    pub fn new() -> (r: Self)
        ensures
            r.next_id() == 0,
    {
        TypeIDAllocator { last: 0 }
    }

    /// Allocates the next identifier.
    pub fn next(&mut self) -> (r: TypeID)
        requires
            old(self).next_id() < u32::MAX,
        ensures
            r.0 == old(self).next_id(),
            final(self).next_id() == old(self).next_id() + 1,
    {
        let r = TypeID(self.last);
        self.last = self.last + 1;
        r
    }
}

/// Identifier of the first entry of `table` named `name`, from entry `i` on.
pub open spec fn resolve_from(table: Seq<(Seq<char>, TypeID)>, name: Seq<char>, i: int) -> Option<
    TypeID,
>
    decreases table.len() - i,
{
    if i < 0 || i >= table.len() {
        None
    } else if table[i].0 == name {
        Some(table[i].1)
    } else {
        resolve_from(table, name, i + 1)
    }
}

pub open spec fn resolve(table: Seq<(Seq<char>, TypeID)>, name: Seq<char>) -> Option<TypeID> {
    resolve_from(table, name, 0)
}

/// The names known so far, each with its identifier.
pub struct CompileState {
    pub name_to_id: Vec<(TypeName, TypeID)>,
}

pub open spec fn table_model(v: Seq<(TypeName, TypeID)>) -> Seq<(Seq<char>, TypeID)> {
    v.map_values(|e: (TypeName, TypeID)| (e.0@, e.1))
}

impl View for CompileState {
    type V = Seq<(Seq<char>, TypeID)>;

    open spec fn view(&self) -> Seq<(Seq<char>, TypeID)> {
        table_model(self.name_to_id@)
    }
}

pub open spec fn unknown(name: Seq<char>, context: Seq<char>) -> ErrorModel {
    ErrorModel::UnknownTypeName { name, context }
}

impl CompileState {
    /// Resolves a name; an unknown name is an error that says where it was used.
    pub fn lookup(&self, name: &TypeName, context: String) -> (r: Result<TypeID, CompileError>)
        ensures
            match resolve(self@, name@) {
                Some(id) => r == Ok::<TypeID, CompileError>(id),
                None => (r matches Err(e) && e@ == unknown(name@, context@)),
            },
    {
        match self.get(name) {
            Some(id) => Ok(id),
            None => Err(CompileError::UnknownTypeName { name: name.clone(), context }),
        }
    }

    /// The identifier of a name, if it is known.
    pub fn get(&self, name: &TypeName) -> (r: Option<TypeID>)
        ensures
            r == resolve(self@, name@),
    {
        let ghost t = self@;
        let n = self.name_to_id.len();
        let mut i: usize = 0;
        while i < n
            invariant
                n == self.name_to_id@.len(),
                t == self@,
                i <= n,
                resolve(t, name@) == resolve_from(t, name@, i as int),
            decreases n - i,
        {
            assert(t[i as int] == (self.name_to_id@[i as int].0@, self.name_to_id@[i as int].1));
            if self.name_to_id[i].0.same(name) {
                return Some(self.name_to_id[i].1);
            }
            i = i + 1;
        }
        None
    }
}

// ---------------------------------------------------------------------------
// Bit ranges
// ---------------------------------------------------------------------------
/// A bit range written `N` or `N-M`.
pub open spec fn range_spec(s: Seq<char>) -> Result<BitRange, IntErrorKind> {
    match find(s, '-') {
        Some(d) => match parse_u32_spec(s.take(d)) {
            Err(e) => Err(e),
            Ok(a) => match parse_u32_spec(s.skip(d + 1)) {
                Err(e) => Err(e),
                Ok(b) => Ok(BitRange { start: a as u32, end: b as u32 }),
            },
        },
        None => match parse_u32_spec(s) {
            Err(e) => Err(e),
            Ok(v) => Ok(BitRange { start: v as u32, end: v as u32 }),
        },
    }
}

/// A bit range written as one number `N` is bit `N` alone; written `A-B` it runs from bit
/// `A` through bit `B`.
pub proof fn lemma_bit_range_text(a: u32, b: u32)
    ensures
        range_spec(crate::text::decimal(a as nat)) == Ok::<BitRange, IntErrorKind>(
            BitRange { start: a, end: a },
        ),
        range_spec(crate::text::decimal(a as nat) + "-"@ + crate::text::decimal(b as nat)) == Ok::<
            BitRange,
            IntErrorKind,
        >(BitRange { start: a, end: b }),
{
    let da = crate::text::decimal(a as nat);
    let db = crate::text::decimal(b as nat);
    crate::strings::lemma_decimal_digits(a as nat);
    crate::strings::lemma_decimal_digits(b as nat);
    crate::strings::lemma_parse_u32_decimal(a);
    crate::strings::lemma_parse_u32_decimal(b);
    lemma_find_from(da, '-', 0);
    if find(da, '-') is Some {
        let k = find(da, '-')->Some_0;
        assert(da[k] != '-');
    }
    let s = da + "-"@ + db;
    assert("-"@.len() == 1 && "-"@[0] == '-') by {
        reveal_strlit("-");
    }
    assert(s[da.len() as int] == '-');
    assert forall|m: int| 0 <= m < da.len() implies s[m] != '-' by {
        assert(s[m] == da[m]);
    }
    lemma_find_first(s, '-', 0, da.len() as int);
    assert(s.take(da.len() as int) =~= da);
    assert(s.skip(da.len() as int + 1) =~= db);
}

/// The first `c` at or after `i` is at `k` when `s[k]` is `c` and nothing between is.
proof fn lemma_find_first(s: Seq<char>, c: char, i: int, k: int)
    requires
        0 <= i <= k < s.len(),
        s[k] == c,
        forall|m: int| i <= m < k ==> s[m] != c,
    ensures
        crate::strings::find_from(s, c, i) == Some(k),
    decreases k - i,
{
    if i < k {
        lemma_find_first(s, c, i + 1, k);
    }
}

/// Parses a bitfield range like `"0"` or `"1-3"` into an inclusive range.
pub fn string_to_range(range: &str) -> (r: Result<BitRange, IntErrorKind>)
    ensures
        r == range_spec(range@),
{
    let v = chars_of(range);
    let len = v.len();
    proof {
        lemma_find_from(v@, '-', 0);
    }
    match find_char_from(&v, '-', 0) {
        Some(d) => {
            let a = slice_chars(&v, 0, d);
            assert(a@ =~= v@.take(d as int));
            let b = slice_chars(&v, d + 1, len);
            assert(b@ =~= v@.skip(d + 1));
            let start = parse_u32(&a)?;
            let end = parse_u32(&b)?;
            Ok(BitRange { start, end })
        },
        None => {
            let x = parse_u32(&v)?;
            Ok(BitRange { start: x, end: x })
        },
    }
}

// ---------------------------------------------------------------------------
// Declarations
// ---------------------------------------------------------------------------
pub open spec fn member_context(owner: Seq<char>, name: Seq<char>) -> Seq<char> {
    "member "@ + owner + "."@ + name
}

pub open spec fn bit_member_context(owner: Seq<char>, name: Seq<char>) -> Seq<char> {
    "bitfield member "@ + owner + "."@ + name
}

pub open spec fn bit_range_context(owner: Seq<char>, name: Seq<char>) -> Seq<char> {
    "bit range for "@ + owner + "."@ + name
}

/// Resolves the member types from member `i` on (`acc`: the members resolved so far).
pub open spec fn struct_members_spec(
    table: Seq<(Seq<char>, TypeID)>,
    owner: Seq<char>,
    ms: Seq<IStructMemberModel>,
    i: int,
    acc: Seq<super::types::StructMemberModel>,
) -> Result<Seq<super::types::StructMemberModel>, ErrorModel>
    decreases ms.len() - i,
{
    if i < 0 || i >= ms.len() {
        Ok(acc)
    } else {
        match resolve(table, ms[i].ty) {
            None => Err(unknown(ms[i].ty, member_context(owner, ms[i].name))),
            Some(id) => struct_members_spec(
                table,
                owner,
                ms,
                i + 1,
                acc.push(
                    super::types::StructMemberModel {
                        name: ms[i].name,
                        ty: id,
                        defined_at: ms[i].defined_at,
                    },
                ),
            ),
        }
    }
}

/// Resolves the bitfield members from member `i` on: the type, then the range.
pub open spec fn bit_members_spec(
    table: Seq<(Seq<char>, TypeID)>,
    owner: Seq<char>,
    ms: Seq<IBitfldMemberModel>,
    i: int,
    acc: Seq<super::types::BitfldMemberModel>,
) -> Result<Seq<super::types::BitfldMemberModel>, ErrorModel>
    decreases ms.len() - i,
{
    if i < 0 || i >= ms.len() {
        Ok(acc)
    } else {
        match resolve(table, ms[i].ty) {
            None => Err(unknown(ms[i].ty, bit_member_context(owner, ms[i].name))),
            Some(id) => match range_spec(ms[i].range) {
                Err(k) => Err(
                    ErrorModel::InvalidBitRange {
                        context: bit_range_context(owner, ms[i].name),
                        range: ms[i].range,
                        source: k,
                    },
                ),
                Ok(r) => bit_members_spec(
                    table,
                    owner,
                    ms,
                    i + 1,
                    acc.push(
                        super::types::BitfldMemberModel {
                            name: ms[i].name,
                            underlying: id,
                            range: r,
                            defined_at: ms[i].defined_at,
                        },
                    ),
                ),
            },
        }
    }
}

/// Resolves the variant cases from case `i` on.
pub open spec fn cases_spec(
    table: Seq<(Seq<char>, TypeID)>,
    ms: Seq<IVariantMemberModel>,
    i: int,
    acc: Seq<super::types::VariantMemberModel>,
) -> Result<Seq<super::types::VariantMemberModel>, ErrorModel>
    decreases ms.len() - i,
{
    if i < 0 || i >= ms.len() {
        Ok(acc)
    } else {
        match resolve(table, ms[i].ty) {
            None => Err(unknown(ms[i].ty, "variant member type "@ + ms[i].ty)),
            Some(id) => cases_spec(
                table,
                ms,
                i + 1,
                acc.push(
                    super::types::VariantMemberModel {
                        ty: id,
                        value: ms[i].value,
                        defined_at: ms[i].defined_at,
                    },
                ),
            ),
        }
    }
}

/// A resolved name, or the error for it in `context`.
pub open spec fn resolved(table: Seq<(Seq<char>, TypeID)>, name: Seq<char>, context: Seq<char>) -> Result<
    TypeID,
    ErrorModel,
> {
    match resolve(table, name) {
        Some(id) => Ok(id),
        None => Err(unknown(name, context)),
    }
}

/// The compiled body of declaration `ident`.
pub open spec fn convert_kind_spec(
    table: Seq<(Seq<char>, TypeID)>,
    ident: Seq<char>,
    k: IKindModel,
) -> Result<KindModel, ErrorModel> {
    match k {
        IKindModel::Alias { other } => match resolved(table, other, "alias "@ + ident) {
            Err(e) => Err(e),
            Ok(id) => Ok(KindModel::Alias { other: id }),
        },
        IKindModel::Pack { members } => match struct_members_spec(
            table,
            ident,
            members,
            0,
            Seq::empty(),
        ) {
            Err(e) => Err(e),
            Ok(ms) => Ok(KindModel::Pack { members: ms }),
        },
        IKindModel::Enum { ty, members, default } => match resolved(
            table,
            ty,
            "enum base type for "@ + ident,
        ) {
            Err(e) => Err(e),
            Ok(id) => Ok(KindModel::Enum { underlying: id, members, default }),
        },
        IKindModel::Bitfld { ty, members } => match resolved(
            table,
            ty,
            "bitfield base for "@ + ident,
        ) {
            Err(e) => Err(e),
            Ok(id) => match bit_members_spec(table, ident, members, 0, Seq::empty()) {
                Err(e) => Err(e),
                Ok(ms) => Ok(KindModel::Bitfld { underlying: id, members: ms }),
            },
        },
        IKindModel::Variant { ty, members } => match resolved(
            table,
            ty,
            "variant discriminant for "@ + ident,
        ) {
            Err(e) => Err(e),
            Ok(id) => match cases_spec(table, members, 0, Seq::empty()) {
                Err(e) => Err(e),
                Ok(ms) => Ok(KindModel::Variant { discriminant: id, members: ms }),
            },
        },
        IKindModel::Sequence { members } => match struct_members_spec(
            table,
            ident,
            members,
            0,
            Seq::empty(),
        ) {
            Err(e) => Err(e),
            Ok(ms) => Ok(KindModel::Sequence { members: ms }),
        },
        IKindModel::DynamicArray { size_type, value_type } => match resolved(
            table,
            size_type,
            "dynamic array count type for "@ + ident,
        ) {
            Err(e) => Err(e),
            Ok(s) => match resolved(table, value_type, "dynamic array element type for "@ + ident) {
                Err(e) => Err(e),
                Ok(v) => Ok(KindModel::DynamicArray { size_type: s, value_type: v }),
            },
        },
        IKindModel::FixedArray { count, value_type } => match resolved(
            table,
            value_type,
            "fixed array element type for "@ + ident,
        ) {
            Err(e) => Err(e),
            Ok(v) => Ok(KindModel::FixedArray { count, value_type: v }),
        },
        IKindModel::Const { ty, value } => match resolved(table, ty, "const "@ + ident) {
            Err(e) => Err(e),
            Ok(t) => Ok(KindModel::Const { ty: t, value }),
        },
    }
}

/// A compiled declaration with its identifier.
pub open spec fn convert_spec(table: Seq<(Seq<char>, TypeID)>, t: ITypeModel) -> Result<
    (TypeID, TypeModel),
    ErrorModel,
> {
    match resolved(table, t.ident, Seq::empty()) {
        Err(e) => Err(e),
        Ok(id) => match convert_kind_spec(table, t.ident, t.kind) {
            Err(e) => Err(e),
            Ok(k) => Ok((id, TypeModel { ident: t.ident, defined_at: t.defined_at, kind: k })),
        },
    }
}


pub open spec fn result_matches<T, M>(
    r: Result<T, CompileError>,
    spec: Result<M, ErrorModel>,
    view: spec_fn(T) -> M,
) -> bool {
    match spec {
        Ok(m) => (r matches Ok(x) && view(x) == m),
        Err(e) => (r matches Err(x) && x@ == e),
    }
}

fn joined(prefix: &str, owner: &TypeName, name: &String) -> (r: String)
    ensures
        r@ == prefix@ + owner@ + "."@ + name@,
{
    let mut c = concat(prefix, owner.as_str());
    c.append(".");
    c.append(name.as_str());
    c
}

/// Resolves the member types of a `pack` or `seq`.
fn convert_struct_members(
    state: &CompileState,
    owner: &TypeName,
    members: &Vec<intermediate::StructMember>,
) -> (r: Result<Vec<StructMember>, CompileError>)
    ensures
        result_matches(
            r,
            struct_members_spec(
                state@,
                owner@,
                intermediate::ast::struct_members_model(members@),
                0,
                Seq::empty(),
            ),
            |v: Vec<StructMember>| struct_members_model(v@),
        ),
{
    let ghost ms = intermediate::ast::struct_members_model(members@);
    let mut out: Vec<StructMember> = Vec::new();
    let mut i: usize = 0;
    assert(struct_members_model(out@) =~= Seq::empty());
    while i < members.len()
        invariant
            i <= members@.len(),
            ms == intermediate::ast::struct_members_model(members@),
            struct_members_spec(state@, owner@, ms, 0, Seq::empty()) == struct_members_spec(
                state@,
                owner@,
                ms,
                i as int,
                struct_members_model(out@),
            ),
        decreases members.len() - i,
    {
        let m = &members[i];
        assert(ms[i as int] == m@);
        let ty = match state.lookup(&m.ty, joined("member ", owner, &m.name)) {
            Ok(ty) => ty,
            Err(e) => {
                return Err(e);
            },
        };
        let ghost before = struct_members_model(out@);
        let member = StructMember { name: m.name.clone(), ty, defined_at: m.defined_at.clone() };
        out.push(member);
        assert(struct_members_model(out@) =~= before.push(member@));
        i = i + 1;
    }
    Ok(out)
}

/// Resolves the members of a `bits` declaration: each member's type, then its range.
fn convert_bit_members(
    state: &CompileState,
    owner: &TypeName,
    members: &Vec<intermediate::BitfldMember>,
) -> (r: Result<Vec<BitfldMember>, CompileError>)
    ensures
        result_matches(
            r,
            bit_members_spec(
                state@,
                owner@,
                intermediate::ast::bitfld_members_model(members@),
                0,
                Seq::empty(),
            ),
            |v: Vec<BitfldMember>| bitfld_members_model(v@),
        ),
{
    let ghost ms = intermediate::ast::bitfld_members_model(members@);
    let mut out: Vec<BitfldMember> = Vec::new();
    let mut i: usize = 0;
    assert(bitfld_members_model(out@) =~= Seq::empty());
    while i < members.len()
        invariant
            i <= members@.len(),
            ms == intermediate::ast::bitfld_members_model(members@),
            bit_members_spec(state@, owner@, ms, 0, Seq::empty()) == bit_members_spec(
                state@,
                owner@,
                ms,
                i as int,
                bitfld_members_model(out@),
            ),
        decreases members.len() - i,
    {
        let m = &members[i];
        assert(ms[i as int] == m@);
        let underlying = match state.lookup(&m.ty, joined("bitfield member ", owner, &m.name)) {
            Ok(ty) => ty,
            Err(e) => {
                return Err(e);
            },
        };
        let range = match string_to_range(m.range.as_str()) {
            Ok(r) => r,
            Err(k) => {
                return Err(
                    CompileError::InvalidBitRange {
                        context: joined("bit range for ", owner, &m.name),
                        range: m.range.clone(),
                        source: k,
                    },
                );
            },
        };
        let ghost before = bitfld_members_model(out@);
        let member = BitfldMember {
            name: m.name.clone(),
            underlying,
            range,
            defined_at: m.defined_at.clone(),
        };
        out.push(member);
        assert(bitfld_members_model(out@) =~= before.push(member@));
        i = i + 1;
    }
    Ok(out)
}

/// Resolves the payload types of a variant's cases.
fn convert_cases(state: &CompileState, members: &Vec<intermediate::VariantMember>) -> (r: Result<
    Vec<VariantMember>,
    CompileError,
>)
    ensures
        result_matches(
            r,
            cases_spec(
                state@,
                intermediate::ast::variant_members_model(members@),
                0,
                Seq::empty(),
            ),
            |v: Vec<VariantMember>| variant_members_model(v@),
        ),
{
    let ghost ms = intermediate::ast::variant_members_model(members@);
    let mut out: Vec<VariantMember> = Vec::new();
    let mut i: usize = 0;
    assert(variant_members_model(out@) =~= Seq::empty());
    while i < members.len()
        invariant
            i <= members@.len(),
            ms == intermediate::ast::variant_members_model(members@),
            cases_spec(state@, ms, 0, Seq::empty()) == cases_spec(
                state@,
                ms,
                i as int,
                variant_members_model(out@),
            ),
        decreases members.len() - i,
    {
        let m = &members[i];
        assert(ms[i as int] == m@);
        let ty = match state.lookup(&m.ty, concat("variant member type ", m.ty.as_str())) {
            Ok(ty) => ty,
            Err(e) => {
                return Err(e);
            },
        };
        let ghost before = variant_members_model(out@);
        let member = VariantMember { ty, value: m.value, defined_at: m.defined_at.clone() };
        out.push(member);
        assert(variant_members_model(out@) =~= before.push(member@));
        i = i + 1;
    }
    Ok(out)
}

/// Converts a parsed declaration into its compiled form.
pub fn convert(state: &CompileState, ty: &intermediate::Type) -> (r: Result<
    (TypeID, Type),
    CompileError,
>)
    ensures
        result_matches(r, convert_spec(state@, ty@), |x: (TypeID, Type)| (x.0, x.1@)),
{
    let ghost tm = ty@;
    let this_id = state.lookup(&ty.ident, String::new())?;
    let ident = &ty.ident;
    let kind = match &ty.kind {
        intermediate::TypeKind::Alias(alias) => {
            let other = state.lookup(&alias.other, concat("alias ", ident.as_str()))?;
            TypeKind::Alias(Alias { other })
        },
        intermediate::TypeKind::Pack(pack) => {
            let members = convert_struct_members(state, ident, &pack.members)?;
            TypeKind::Pack(Pack { members })
        },
        intermediate::TypeKind::Enum(enm) => {
            let underlying = state.lookup(&enm.ty, concat("enum base type for ", ident.as_str()))?;
            let mut members: Vec<intermediate::EnumMember> = Vec::new();
            let mut i: usize = 0;
            while i < enm.members.len()
                invariant
                    i <= enm.members@.len(),
                    members@.len() == i,
                    forall|k: int| 0 <= k < i ==> (#[trigger] members@[k])@ == enm.members@[k]@,
                decreases enm.members.len() - i,
            {
                members.push(enm.members[i].clone());
                i = i + 1;
            }
            assert(intermediate::ast::enum_members_model(members@) =~= intermediate::ast::enum_members_model(
                enm.members@,
            ));
            let default = match &enm.default {
                Some(d) => Some(d.clone()),
                None => None,
            };
            TypeKind::Enum(Enum { underlying, members, default })
        },
        intermediate::TypeKind::Bitfld(bitfld) => {
            let underlying = state.lookup(&bitfld.ty, concat("bitfield base for ", ident.as_str()))?;
            let members = convert_bit_members(state, ident, &bitfld.members)?;
            TypeKind::Bitfld(Bitfld { underlying, members })
        },
        intermediate::TypeKind::Variant(variant) => {
            let discriminant = state.lookup(
                &variant.ty,
                concat("variant discriminant for ", ident.as_str()),
            )?;
            let members = convert_cases(state, &variant.members)?;
            TypeKind::Variant(Variant { discriminant, members })
        },
        intermediate::TypeKind::Sequence(sequence) => {
            let members = convert_struct_members(state, ident, &sequence.members)?;
            TypeKind::Sequence(Sequence { members })
        },
        intermediate::TypeKind::DynamicArray(arr) => {
            let size_type = state.lookup(
                &arr.size_type,
                concat("dynamic array count type for ", ident.as_str()),
            )?;
            let value_type = state.lookup(
                &arr.value_type,
                concat("dynamic array element type for ", ident.as_str()),
            )?;
            TypeKind::DynamicArray(DynamicArray { size_type, value_type })
        },
        intermediate::TypeKind::FixedArray(arr) => {
            let value_type = state.lookup(
                &arr.value_type,
                concat("fixed array element type for ", ident.as_str()),
            )?;
            TypeKind::FixedArray(FixedArray { count: arr.count, value_type })
        },
        intermediate::TypeKind::Const(c) => {
            let target = state.lookup(&c.ty, concat("const ", ident.as_str()))?;
            TypeKind::Const(Const { ty: target, value: c.value })
        },
    };
    Ok((this_id, Type { ident: ty.ident.clone(), defined_at: ty.defined_at.clone(), kind }))
}


// ---------------------------------------------------------------------------
// Resolved identifiers stay within the table
// ---------------------------------------------------------------------------
/// Entry `j` of the table has identifier `j`.
pub open spec fn indexed(table: Seq<(Seq<char>, TypeID)>) -> bool {
    forall|j: int| 0 <= j < table.len() ==> (#[trigger] table[j]).1 == TypeID(j as u32)
}

pub proof fn lemma_resolve_from(table: Seq<(Seq<char>, TypeID)>, name: Seq<char>, i: int)
    requires
        0 <= i,
    ensures
        resolve_from(table, name, i) matches Some(id) ==> exists|j: int|
            i <= j < table.len() && table[j].0 == name && table[j].1 == id,
        resolve_from(table, name, i) is None ==> forall|j: int|
            i <= j < table.len() ==> table[j].0 != name,
    decreases table.len() - i,
{
    if i < table.len() && table[i].0 != name {
        lemma_resolve_from(table, name, i + 1);
    }
}

/// A name resolves to the first entry that carries it.
pub proof fn lemma_resolve_first(table: Seq<(Seq<char>, TypeID)>, name: Seq<char>, j: int, i: int)
    requires
        0 <= i <= j < table.len(),
        table[j].0 == name,
        forall|q: int| i <= q < j ==> table[q].0 != name,
    ensures
        resolve_from(table, name, i) == Some(table[j].1),
    decreases j - i,
{
    if i < j {
        lemma_resolve_first(table, name, j, i + 1);
    }
}

pub proof fn lemma_resolve_indexed(table: Seq<(Seq<char>, TypeID)>, name: Seq<char>)
    requires
        indexed(table),
    ensures
        resolve(table, name) matches Some(id) ==> id.0 < table.len(),
{
    lemma_resolve_from(table, name, 0);
    if let Some(id) = resolve(table, name) {
        let j = choose|j: int| 0 <= j < table.len() && table[j].0 == name && table[j].1 == id;
        assert(table[j].1 == TypeID(j as u32));
    }
}

pub proof fn lemma_struct_members_bound(
    table: Seq<(Seq<char>, TypeID)>,
    owner: Seq<char>,
    ms: Seq<IStructMemberModel>,
    i: int,
    acc: Seq<super::types::StructMemberModel>,
)
    requires
        indexed(table),
        forall|q: int| 0 <= q < acc.len() ==> (#[trigger] acc[q]).ty.0 < table.len(),
    ensures
        struct_members_spec(table, owner, ms, i, acc) matches Ok(r) ==> forall|q: int|
            0 <= q < r.len() ==> (#[trigger] r[q]).ty.0 < table.len(),
    decreases ms.len() - i,
{
    if 0 <= i < ms.len() {
        lemma_resolve_indexed(table, ms[i].ty);
        if let Some(id) = resolve(table, ms[i].ty) {
            let m = super::types::StructMemberModel {
                name: ms[i].name,
                ty: id,
                defined_at: ms[i].defined_at,
            };
            assert forall|q: int| 0 <= q < acc.push(m).len() implies (#[trigger] acc.push(m)[q]).ty.0
                < table.len() by {
                if q < acc.len() {
                    assert(acc.push(m)[q] == acc[q]);
                }
            }
            lemma_struct_members_bound(table, owner, ms, i + 1, acc.push(m));
        }
    }
}

pub proof fn lemma_bit_members_bound(
    table: Seq<(Seq<char>, TypeID)>,
    owner: Seq<char>,
    ms: Seq<IBitfldMemberModel>,
    i: int,
    acc: Seq<super::types::BitfldMemberModel>,
)
    requires
        indexed(table),
        forall|q: int| 0 <= q < acc.len() ==> (#[trigger] acc[q]).underlying.0 < table.len(),
    ensures
        bit_members_spec(table, owner, ms, i, acc) matches Ok(r) ==> forall|q: int|
            0 <= q < r.len() ==> (#[trigger] r[q]).underlying.0 < table.len(),
    decreases ms.len() - i,
{
    if 0 <= i < ms.len() {
        lemma_resolve_indexed(table, ms[i].ty);
        if let Some(id) = resolve(table, ms[i].ty) {
            if let Ok(r) = range_spec(ms[i].range) {
                let m = super::types::BitfldMemberModel {
                    name: ms[i].name,
                    underlying: id,
                    range: r,
                    defined_at: ms[i].defined_at,
                };
                assert forall|q: int| 0 <= q < acc.push(m).len() implies (#[trigger] acc.push(
                    m,
                )[q]).underlying.0 < table.len() by {
                    if q < acc.len() {
                        assert(acc.push(m)[q] == acc[q]);
                    }
                }
                lemma_bit_members_bound(table, owner, ms, i + 1, acc.push(m));
            }
        }
    }
}

pub proof fn lemma_cases_bound(
    table: Seq<(Seq<char>, TypeID)>,
    ms: Seq<IVariantMemberModel>,
    i: int,
    acc: Seq<super::types::VariantMemberModel>,
)
    requires
        indexed(table),
        forall|q: int| 0 <= q < acc.len() ==> (#[trigger] acc[q]).ty.0 < table.len(),
    ensures
        cases_spec(table, ms, i, acc) matches Ok(r) ==> forall|q: int|
            0 <= q < r.len() ==> (#[trigger] r[q]).ty.0 < table.len(),
    decreases ms.len() - i,
{
    if 0 <= i < ms.len() {
        lemma_resolve_indexed(table, ms[i].ty);
        if let Some(id) = resolve(table, ms[i].ty) {
            let m = super::types::VariantMemberModel {
                ty: id,
                value: ms[i].value,
                defined_at: ms[i].defined_at,
            };
            assert forall|q: int| 0 <= q < acc.push(m).len() implies (#[trigger] acc.push(m)[q]).ty.0
                < table.len() by {
                if q < acc.len() {
                    assert(acc.push(m)[q] == acc[q]);
                }
            }
            lemma_cases_bound(table, ms, i + 1, acc.push(m));
        }
    }
}

/// Every identifier a converted declaration mentions is an entry of the table.
pub proof fn lemma_convert_refs(table: Seq<(Seq<char>, TypeID)>, ident: Seq<char>, k: IKindModel)
    requires
        indexed(table),
    ensures
        convert_kind_spec(table, ident, k) matches Ok(km) ==> forall|d: TypeID|
            #[trigger] super::verify::refs(km).contains(d) ==> d.0 < table.len(),
{
    match convert_kind_spec(table, ident, k) {
        Ok(km) => {
            match k {
                IKindModel::Alias { other } => {
                    lemma_resolve_indexed(table, other);
                },
                IKindModel::Pack { members } => {
                    lemma_struct_members_bound(table, ident, members, 0, Seq::empty());
                },
                IKindModel::Enum { ty, .. } => {
                    lemma_resolve_indexed(table, ty);
                },
                IKindModel::Bitfld { ty, members } => {
                    lemma_resolve_indexed(table, ty);
                    lemma_bit_members_bound(table, ident, members, 0, Seq::empty());
                },
                IKindModel::Variant { ty, members } => {
                    lemma_resolve_indexed(table, ty);
                    lemma_cases_bound(table, members, 0, Seq::empty());
                },
                IKindModel::Sequence { members } => {
                    lemma_struct_members_bound(table, ident, members, 0, Seq::empty());
                },
                IKindModel::DynamicArray { size_type, value_type } => {
                    lemma_resolve_indexed(table, size_type);
                    lemma_resolve_indexed(table, value_type);
                },
                IKindModel::FixedArray { value_type, .. } => {
                    lemma_resolve_indexed(table, value_type);
                },
                IKindModel::Const { ty, .. } => {
                    lemma_resolve_indexed(table, ty);
                },
            }
            assert forall|d: TypeID| #[trigger] super::verify::refs(km).contains(d) implies d.0
                < table.len() by {
                let q = choose|q: int| 0 <= q < super::verify::refs(km).len() && super::verify::refs(
                    km,
                )[q] == d;
                match km {
                    KindModel::Bitfld { underlying, members } => {
                        if q > 0 {
                            assert(super::verify::refs(km)[q] == members[q - 1].underlying);
                        }
                    },
                    KindModel::Variant { discriminant, members } => {
                        if q > 0 {
                            assert(super::verify::refs(km)[q] == members[q - 1].ty);
                        }
                    },
                    KindModel::Pack { members } => {
                        assert(super::verify::refs(km)[q] == members[q].ty);
                    },
                    KindModel::Sequence { members } => {
                        assert(super::verify::refs(km)[q] == members[q].ty);
                    },
                    _ => {},
                }
            }
        },
        Err(_) => {},
    }
}

} // verus!
