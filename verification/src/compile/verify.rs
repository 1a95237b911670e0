//! The rules a compiled world must satisfy.
use vstd::prelude::*;

use super::error::{CompileError, ErrorModel, Problem, ProblemModel};
use super::toposort::{bit_member_tys, case_tys, layout_deps, member_tys};
use super::types::{
    def_of, defs_model, distinct_ids, has_id, BitfldMemberModel, Datatype, KindModel, Primitive,
    Signedness, StructMemberModel, Type, TypeID, TypeKind, TypeModel, VariantMemberModel, World,
};
use crate::intermediate::ast::EnumMemberModel;
use crate::text::concat;

verus! {

// ---------------------------------------------------------------------------
// The world that is checked
// ---------------------------------------------------------------------------
/// Every identifier a type mentions.
pub open spec fn refs(k: KindModel) -> Seq<TypeID> {
    match k {
        KindModel::DynamicArray { size_type, value_type } => seq![size_type, value_type],
        _ => layout_deps(k),
    }
}

/// Every identifier mentioned by a definition is defined, and identifiers are distinct.
pub open spec fn closed(defs: Seq<(TypeID, TypeModel)>) -> bool {
    &&& distinct_ids(defs)
    &&& forall|i: int, d: TypeID|
        0 <= i < defs.len() && #[trigger] refs(defs[i].1.kind).contains(d) ==> has_id(defs, d)
}

pub open spec fn kind_of(defs: Seq<(TypeID, TypeModel)>, id: TypeID) -> KindModel {
    def_of(defs, id).kind
}

pub open spec fn name_of(defs: Seq<(TypeID, TypeModel)>, id: TypeID) -> Seq<char> {
    def_of(defs, id).ident
}

// ---------------------------------------------------------------------------
// Integers and plain old data
// ---------------------------------------------------------------------------
/// Following at most `fuel` aliases from `id`: the integer primitive reached (of sign
/// `sign`, when one is asked for), or the name of the type reached that is not one.
pub open spec fn int_of(
    defs: Seq<(TypeID, TypeModel)>,
    id: TypeID,
    sign: Option<Signedness>,
    fuel: nat,
) -> Result<Primitive, Seq<char>>
    decreases fuel,
{
    match kind_of(defs, id) {
        KindModel::Alias { other } => if fuel == 0 {
            Err(name_of(defs, id))
        } else {
            int_of(defs, other, sign, (fuel - 1) as nat)
        },
        KindModel::Primitive { primitive } => if primitive.dtype == Datatype::Integer && match sign {
            Some(s) => primitive.sign == s,
            None => true,
        } {
            Ok(primitive)
        } else {
            Err(name_of(defs, id))
        },
        _ => Err(name_of(defs, id)),
    }
}

/// Following at most `fuel` definitions from `id`: the name of the first type met that
/// is not plain old data (a variant, a sequence, a dynamic array or `void`), if any.
pub open spec fn pod_problem(defs: Seq<(TypeID, TypeModel)>, id: TypeID, fuel: nat) -> Option<
    Seq<char>,
>
    decreases fuel, 0int, 0int,
{
    if fuel == 0 {
        Some(name_of(defs, id))
    } else {
        match kind_of(defs, id) {
            KindModel::Pack { members } => pod_problem_list(
                defs,
                member_tys(members),
                0,
                (fuel - 1) as nat,
            ),
            KindModel::Enum { underlying, .. } => pod_problem(defs, underlying, (fuel - 1) as nat),
            KindModel::Bitfld { underlying, .. } => pod_problem(
                defs,
                underlying,
                (fuel - 1) as nat,
            ),
            KindModel::FixedArray { value_type, .. } => pod_problem(
                defs,
                value_type,
                (fuel - 1) as nat,
            ),
            KindModel::Alias { other } => pod_problem(defs, other, (fuel - 1) as nat),
            KindModel::Primitive { .. } => None,
            _ => Some(name_of(defs, id)),
        }
    }
}

/// The first problem of `pod_problem` among `ids` from index `i`.
pub open spec fn pod_problem_list(
    defs: Seq<(TypeID, TypeModel)>,
    ids: Seq<TypeID>,
    i: int,
    fuel: nat,
) -> Option<Seq<char>>
    decreases fuel, 1int, ids.len() - i,
{
    if i < 0 || i >= ids.len() {
        None
    } else {
        match pod_problem(defs, ids[i], fuel) {
            Some(n) => Some(n),
            None => pod_problem_list(defs, ids, i + 1, fuel),
        }
    }
}

/// Whether the type `id` is plain old data, for sizing aggregate reads.
pub open spec fn is_pod_spec(defs: Seq<(TypeID, TypeModel)>, id: TypeID, fuel: nat) -> bool
    decreases fuel,
{
    match kind_of(defs, id) {
        KindModel::Pack { .. } => true,
        KindModel::Enum { .. } => true,
        KindModel::Bitfld { .. } => true,
        KindModel::Primitive { .. } => true,
        KindModel::FixedArray { value_type, .. } => fuel > 0 && is_pod_spec(
            defs,
            value_type,
            (fuel - 1) as nat,
        ),
        KindModel::Alias { other } => fuel > 0 && is_pod_spec(defs, other, (fuel - 1) as nat),
        _ => false,
    }
}

// ---------------------------------------------------------------------------
// Repeated names
// ---------------------------------------------------------------------------
pub open spec fn count_of(s: Seq<Seq<char>>, x: Seq<char>) -> nat
    decreases s.len(),
{
    if s.len() == 0 {
        0
    } else {
        count_of(s.drop_last(), x) + if s.last() == x {
            1nat
        } else {
            0nat
        }
    }
}

/// Index of the first name that repeats an earlier one, from `i` on.
pub open spec fn first_repeat(s: Seq<Seq<char>>, i: int) -> Option<int>
    decreases s.len() - i,
{
    if i < 0 || i >= s.len() {
        None
    } else if s.take(i).contains(s[i]) {
        Some(i)
    } else {
        first_repeat(s, i + 1)
    }
}

/// The names that occur more than once, each listed at its second occurrence.
pub open spec fn repeated(s: Seq<Seq<char>>) -> Seq<Seq<char>>
    decreases s.len(),
{
    if s.len() == 0 {
        Seq::empty()
    } else if count_of(s.drop_last(), s.last()) == 1 {
        repeated(s.drop_last()).push(s.last())
    } else {
        repeated(s.drop_last())
    }
}

/// The names reported when `s` has a repetition: every name that occurs more than once.
pub open spec fn unique_problem(s: Seq<Seq<char>>) -> Option<ProblemModel> {
    match first_repeat(s, 0) {
        None => None,
        Some(k) => Some(ProblemModel::DuplicateNames { names: repeated(s) }),
    }
}


// ---------------------------------------------------------------------------
// Rules per kind of declaration
// ---------------------------------------------------------------------------
/// Whether a bitfield member may have type `id` (following at most `fuel` aliases): an
/// integer, or an enum over an integer.
pub open spec fn bit_member_type_ok(defs: Seq<(TypeID, TypeModel)>, id: TypeID, fuel: nat) -> bool
    decreases fuel,
{
    match kind_of(defs, id) {
        KindModel::Alias { other } => fuel > 0 && bit_member_type_ok(defs, other, (fuel - 1) as nat),
        KindModel::Enum { underlying, .. } => int_of(defs, underlying, None, fuel) is Ok,
        KindModel::Primitive { primitive } => primitive.dtype == Datatype::Integer,
        _ => false,
    }
}

pub open spec fn overlaps(a: super::types::BitRange, b: super::types::BitRange) -> bool {
    a.start <= b.end && b.start <= a.end
}

/// The first bitfield member, from `i` on, with a bad type or a bad range.
pub open spec fn bit_members_problem(
    defs: Seq<(TypeID, TypeModel)>,
    ms: Seq<BitfldMemberModel>,
    i: int,
    width: u32,
    fuel: nat,
) -> Option<ProblemModel>
    decreases ms.len() - i,
{
    if i < 0 || i >= ms.len() {
        None
    } else {
        let m = ms[i];
        if !bit_member_type_ok(defs, m.underlying, fuel) {
            Some(ProblemModel::BadMemberType { member: m.name, ty: name_of(defs, m.underlying) })
        } else if m.range.start > m.range.end {
            Some(
                ProblemModel::RangeReversed {
                    member: m.name,
                    start: m.range.start,
                    end: m.range.end,
                },
            )
        } else if m.range.end >= width {
            Some(ProblemModel::RangeTooWide { member: m.name, end: m.range.end, width })
        } else if exists|j: int| 0 <= j < i && overlaps(#[trigger] ms[j].range, m.range) {
            Some(ProblemModel::Overlap { member: m.name })
        } else {
            bit_members_problem(defs, ms, i + 1, width, fuel)
        }
    }
}

pub open spec fn struct_names(ms: Seq<StructMemberModel>) -> Seq<Seq<char>> {
    ms.map_values(|m: StructMemberModel| m.name)
}

pub open spec fn enum_names(ms: Seq<EnumMemberModel>) -> Seq<Seq<char>> {
    ms.map_values(|m: EnumMemberModel| m.name)
}

pub open spec fn bit_names(ms: Seq<BitfldMemberModel>) -> Seq<Seq<char>> {
    ms.map_values(|m: BitfldMemberModel| m.name)
}

/// The base of a bitfield: an enum's base, or the type itself, as an unsigned integer.
pub open spec fn bits_base(defs: Seq<(TypeID, TypeModel)>, underlying: TypeID, fuel: nat) -> Result<
    Primitive,
    Seq<char>,
> {
    match kind_of(defs, underlying) {
        KindModel::Enum { underlying: u, .. } => int_of(defs, u, Some(Signedness::Unsigned), fuel),
        _ => int_of(defs, underlying, Some(Signedness::Unsigned), fuel),
    }
}

pub open spec fn pack_problem(defs: Seq<(TypeID, TypeModel)>, ms: Seq<StructMemberModel>, fuel: nat) -> Option<
    ProblemModel,
> {
    match unique_problem(struct_names(ms)) {
        Some(p) => Some(p),
        None => match pod_problem_list(defs, member_tys(ms), 0, fuel) {
            Some(n) => Some(ProblemModel::NotPod { ty: n }),
            None => None,
        },
    }
}

/// Index of the first enumerant, from `i` on, whose value an earlier one already has.
pub open spec fn repeated_value(ms: Seq<EnumMemberModel>, i: int) -> Option<int>
    decreases ms.len() - i,
{
    if i < 0 || i >= ms.len() {
        None
    } else if exists|j: int| 0 <= j < i && (#[trigger] ms[j]).value == ms[i].value {
        Some(i)
    } else {
        repeated_value(ms, i + 1)
    }
}

/// Index of the first enumerant, from `i` on, whose value `p` cannot hold.
pub open spec fn misfit_member(ms: Seq<EnumMemberModel>, p: Primitive, i: int) -> Option<int>
    decreases ms.len() - i,
{
    if i < 0 || i >= ms.len() {
        None
    } else if !(p.min_value() <= ms[i].value <= p.max_value()) {
        Some(i)
    } else {
        misfit_member(ms, p, i + 1)
    }
}

pub open spec fn misfit(what: Seq<char>, value: int, p: Primitive) -> ProblemModel {
    ProblemModel::DoesNotFit {
        what,
        value: value as i128,
        primitive: p,
        reason: super::types::FitError::OutOfRange,
    }
}

pub open spec fn enum_problem(
    defs: Seq<(TypeID, TypeModel)>,
    underlying: TypeID,
    ms: Seq<EnumMemberModel>,
    default: Option<EnumMemberModel>,
    fuel: nat,
) -> Option<ProblemModel> {
    let names = match default {
        Some(d) => enum_names(ms).push(d.name),
        None => enum_names(ms),
    };
    match unique_problem(names) {
        Some(p) => Some(p),
        None => match repeated_value(ms, 0) {
            Some(k) => Some(ProblemModel::DuplicateEnumValue { name: ms[k].name, value: ms[k].value }),
            None => match int_of(defs, underlying, Some(Signedness::Unsigned), fuel) {
                Err(n) => Some(ProblemModel::NotUnsignedInteger { ty: n }),
                Ok(p) => match misfit_member(ms, p, 0) {
                    Some(k) => Some(misfit("member "@ + ms[k].name, ms[k].value as int, p)),
                    None => match default {
                        Some(d) => if !(p.min_value() <= d.value <= p.max_value()) {
                            Some(misfit("default "@ + d.name, d.value as int, p))
                        } else {
                            None
                        },
                        None => None,
                    },
                },
            },
        },
    }
}

pub open spec fn bitfld_problem(
    defs: Seq<(TypeID, TypeModel)>,
    underlying: TypeID,
    ms: Seq<BitfldMemberModel>,
    fuel: nat,
) -> Option<ProblemModel> {
    match unique_problem(bit_names(ms)) {
        Some(p) => Some(p),
        None => match bits_base(defs, underlying, fuel) {
            Err(n) => Some(ProblemModel::NotUnsignedInteger { ty: n }),
            Ok(p) => bit_members_problem(defs, ms, 0, p.bit_count(), fuel),
        },
    }
}

/// The first case, from `i` on, whose discriminant repeats or does not fit `p`.
pub open spec fn cases_problem(ms: Seq<VariantMemberModel>, p: Primitive, i: int) -> Option<
    ProblemModel,
>
    decreases ms.len() - i,
{
    if i < 0 || i >= ms.len() {
        None
    } else if exists|j: int| 0 <= j < i && (#[trigger] ms[j]).value == ms[i].value {
        Some(ProblemModel::DuplicateDiscriminant { value: ms[i].value })
    } else if !(p.min_value() <= ms[i].value <= p.max_value()) {
        Some(misfit("discriminant"@, ms[i].value as int, p))
    } else {
        cases_problem(ms, p, i + 1)
    }
}

pub open spec fn variant_problem(
    defs: Seq<(TypeID, TypeModel)>,
    discriminant: TypeID,
    ms: Seq<VariantMemberModel>,
    fuel: nat,
) -> Option<ProblemModel> {
    match int_of(defs, discriminant, Some(Signedness::Unsigned), fuel) {
        Err(n) => Some(ProblemModel::NotUnsignedInteger { ty: n }),
        Ok(p) => cases_problem(ms, p, 0),
    }
}

pub open spec fn dynarray_problem(
    defs: Seq<(TypeID, TypeModel)>,
    size_type: TypeID,
    value_type: TypeID,
    fuel: nat,
) -> Option<ProblemModel> {
    match int_of(defs, size_type, Some(Signedness::Unsigned), fuel) {
        Err(n) => Some(ProblemModel::NotUnsignedInteger { ty: n }),
        Ok(_) => if kind_of(defs, value_type) is Void {
            Some(ProblemModel::VoidElement)
        } else {
            None
        },
    }
}

pub open spec fn fixarray_problem(
    defs: Seq<(TypeID, TypeModel)>,
    count: u64,
    value_type: TypeID,
    fuel: nat,
) -> Option<ProblemModel> {
    if count == 0 {
        Some(ProblemModel::EmptyFixedArray)
    } else {
        match pod_problem(defs, value_type, fuel) {
            Some(n) => Some(ProblemModel::NotPod { ty: n }),
            None => None,
        }
    }
}

/// A constant's type must be (an alias of) an integer primitive that holds its value.
pub open spec fn const_problem(defs: Seq<(TypeID, TypeModel)>, ty: TypeID, value: i64, fuel: nat) -> Option<
    ProblemModel,
> {
    match int_of(defs, ty, None, fuel) {
        Err(n) => Some(ProblemModel::NotPrimitive { ty: n }),
        Ok(p) => if !(p.min_value() <= value <= p.max_value()) {
            Some(misfit("value"@, value as int, p))
        } else {
            None
        },
    }
}

pub open spec fn invalid(context: Seq<char>, p: Option<ProblemModel>) -> Option<ErrorModel> {
    match p {
        Some(x) => Some(ErrorModel::Invalid { context, problem: x }),
        None => None,
    }
}

/// The rule that definition `t` breaks, if any.
pub open spec fn def_problem(defs: Seq<(TypeID, TypeModel)>, t: TypeModel, fuel: nat) -> Option<
    ErrorModel,
> {
    match t.kind {
        KindModel::Pack { members } => invalid("pack "@ + t.ident, pack_problem(defs, members, fuel)),
        KindModel::Enum { underlying, members, default } => invalid(
            "enum "@ + t.ident,
            enum_problem(defs, underlying, members, default, fuel),
        ),
        KindModel::Bitfld { underlying, members } => invalid(
            "bitfld "@ + t.ident,
            bitfld_problem(defs, underlying, members, fuel),
        ),
        KindModel::Variant { discriminant, members } => invalid(
            "variant "@ + t.ident,
            variant_problem(defs, discriminant, members, fuel),
        ),
        KindModel::Sequence { members } => invalid(
            "sequence "@ + t.ident,
            unique_problem(struct_names(members)),
        ),
        KindModel::DynamicArray { size_type, value_type } => invalid(
            "dynarray "@ + t.ident,
            dynarray_problem(defs, size_type, value_type, fuel),
        ),
        KindModel::FixedArray { count, value_type } => invalid(
            "fixarray "@ + t.ident,
            fixarray_problem(defs, count, value_type, fuel),
        ),
        KindModel::Const { ty, value } => invalid("const "@ + t.ident, const_problem(defs, ty, value, fuel)),
        _ => None,
    }
}

/// The first definition, from `i` on, that breaks a rule. Chains of references are
/// followed at most as many steps as there are definitions, which in a world without
/// cycles is never a limit.
pub open spec fn world_problem(defs: Seq<(TypeID, TypeModel)>, i: int) -> Option<ErrorModel>
    decreases defs.len() - i,
{
    if i < 0 || i >= defs.len() {
        None
    } else {
        match def_problem(defs, defs[i].1, defs.len() as nat) {
            Some(e) => Some(e),
            None => world_problem(defs, i + 1),
        }
    }
}


// ---------------------------------------------------------------------------
// Executable checks
// ---------------------------------------------------------------------------
pub proof fn lemma_closed_ref(defs: Seq<(TypeID, TypeModel)>, id: TypeID, d: TypeID)
    requires
        closed(defs),
        has_id(defs, id),
        refs(kind_of(defs, id)).contains(d),
    ensures
        has_id(defs, d),
{
    super::types::lemma_def_index(defs, id);
    let i = super::types::def_index(defs, id);
    assert(refs(defs[i].1.kind).contains(d));
}

pub proof fn lemma_int_of(defs: Seq<(TypeID, TypeModel)>, id: TypeID, sign: Option<Signedness>, fuel: nat)
    ensures
        int_of(defs, id, sign, fuel) matches Ok(p) ==> p.dtype == Datatype::Integer && (sign matches Some(
            s,
        ) ==> p.sign == s),
    decreases fuel,
{
    if fuel > 0 {
        match kind_of(defs, id) {
            KindModel::Alias { other } => lemma_int_of(defs, other, sign, (fuel - 1) as nat),
            _ => {},
        }
    }
}

pub open spec fn opt_name(r: Option<crate::intermediate::TypeName>) -> Option<Seq<char>> {
    match r {
        Some(n) => Some(n@),
        None => None,
    }
}

/// Follows aliases from `id` to an integer primitive of the wanted sign.
fn int_of_exec(world: &World, id: TypeID, sign: Option<Signedness>, fuel: usize) -> (r: Result<
    Primitive,
    crate::intermediate::TypeName,
>)
    requires
        closed(world@.defs),
        has_id(world@.defs, id),
    ensures
        match int_of(world@.defs, id, sign, fuel as nat) {
            Ok(p) => r == Ok::<Primitive, crate::intermediate::TypeName>(p),
            Err(n) => (r matches Err(x) && x@ == n),
        },
    decreases fuel,
{
    let ty = world.lookup(id);
    match &ty.kind {
        TypeKind::Alias(a) => {
            if fuel == 0 {
                Err(ty.ident.clone())
            } else {
                proof {
                    assert(refs(kind_of(world@.defs, id))[0] == a.other);
                    lemma_closed_ref(world@.defs, id, a.other);
                }
                int_of_exec(world, a.other, sign, fuel - 1)
            }
        },
        TypeKind::Primitive(p) => {
            let sign_ok = match sign {
                Some(s) => p.sign == s,
                None => true,
            };
            if p.is_integer() && sign_ok {
                Ok(*p)
            } else {
                Err(ty.ident.clone())
            }
        },
        _ => Err(ty.ident.clone()),
    }
}


/// Asserts that a type is (an alias of) an integer primitive of either sign.
fn verify_is_integer(world: &World, id: TypeID, fuel: usize) -> (r: Result<
    Primitive,
    crate::intermediate::TypeName,
>)
    requires
        closed(world@.defs),
        has_id(world@.defs, id),
    ensures
        match int_of(world@.defs, id, None, fuel as nat) {
            Ok(p) => r == Ok::<Primitive, crate::intermediate::TypeName>(p),
            Err(n) => (r matches Err(x) && x@ == n),
        },
{
    int_of_exec(world, id, None, fuel)
}

/// The first type met from `id` that is not plain old data, if any.
fn pod_check(world: &World, id: TypeID, fuel: usize) -> (r: Option<crate::intermediate::TypeName>)
    requires
        closed(world@.defs),
        has_id(world@.defs, id),
    ensures
        opt_name(r) == pod_problem(world@.defs, id, fuel as nat),
    decreases fuel,
{
    let ghost defs = world@.defs;
    let ty = world.lookup(id);
    if fuel == 0 {
        return Some(ty.ident.clone());
    }
    match &ty.kind {
        TypeKind::Pack(pack) => {
            let ghost tys = member_tys(super::types::struct_members_model(pack.members@));
            let mut i: usize = 0;
            while i < pack.members.len()
                invariant
                    defs == world@.defs,
                    closed(defs),
                    has_id(defs, id),
                    fuel > 0,
                    kind_of(defs, id) == ty.kind@,
                    ty.kind@ == (KindModel::Pack { members: super::types::struct_members_model(pack.members@) }),
                    tys == member_tys(super::types::struct_members_model(pack.members@)),
                    i <= pack.members@.len(),
                    pod_problem_list(defs, tys, 0, (fuel - 1) as nat) == pod_problem_list(
                        defs,
                        tys,
                        i as int,
                        (fuel - 1) as nat,
                    ),
                decreases pack.members.len() - i,
            {
                let m = pack.members[i].ty;
                proof {
                    assert(tys[i as int] == m);
                    assert(refs(kind_of(defs, id)).contains(m));
                    lemma_closed_ref(defs, id, m);
                }
                match pod_check(world, m, fuel - 1) {
                    Some(n) => {
                        return Some(n);
                    },
                    None => {},
                }
                i = i + 1;
            }
            None
        },
        TypeKind::Enum(e) => {
            proof {
                assert(refs(kind_of(defs, id))[0] == e.underlying);
                lemma_closed_ref(defs, id, e.underlying);
            }
            pod_check(world, e.underlying, fuel - 1)
        },
        TypeKind::Bitfld(b) => {
            proof {
                assert(refs(kind_of(defs, id))[0] == b.underlying);
                lemma_closed_ref(defs, id, b.underlying);
            }
            pod_check(world, b.underlying, fuel - 1)
        },
        TypeKind::FixedArray(f) => {
            proof {
                assert(refs(kind_of(defs, id))[0] == f.value_type);
                lemma_closed_ref(defs, id, f.value_type);
            }
            pod_check(world, f.value_type, fuel - 1)
        },
        TypeKind::Alias(a) => {
            proof {
                assert(refs(kind_of(defs, id))[0] == a.other);
                lemma_closed_ref(defs, id, a.other);
            }
            pod_check(world, a.other, fuel - 1)
        },
        TypeKind::Primitive(_) => None,
        _ => Some(ty.ident.clone()),
    }
}


/// Whether the type `id` is plain old data.
pub fn type_is_pod(world: &World, id: TypeID, fuel: usize) -> (b: bool)
    requires
        closed(world@.defs),
        has_id(world@.defs, id),
    ensures
        b == is_pod_spec(world@.defs, id, fuel as nat),
    decreases fuel,
{
    let ghost defs = world@.defs;
    let ty = world.lookup(id);
    match &ty.kind {
        TypeKind::Pack(_) => true,
        TypeKind::Enum(_) => true,
        TypeKind::Bitfld(_) => true,
        TypeKind::Primitive(_) => true,
        TypeKind::FixedArray(f) => {
            if fuel == 0 {
                return false;
            }
            proof {
                assert(refs(kind_of(defs, id))[0] == f.value_type);
                lemma_closed_ref(defs, id, f.value_type);
            }
            type_is_pod(world, f.value_type, fuel - 1)
        },
        TypeKind::Alias(a) => {
            if fuel == 0 {
                return false;
            }
            proof {
                assert(refs(kind_of(defs, id))[0] == a.other);
                lemma_closed_ref(defs, id, a.other);
            }
            type_is_pod(world, a.other, fuel - 1)
        },
        _ => false,
    }
}


/// Checks that no name repeats; otherwise returns every name that occurs more than once.
fn verify_unique(names: &Vec<String>) -> (r: Result<(), Vec<String>>)
    ensures
        match unique_problem(super::error::strings_model(names@)) {
            None => r is Ok,
            Some(p) => (r matches Err(v) && p == ProblemModel::DuplicateNames {
                names: super::error::strings_model(v@),
            }),
        },
{
    let ghost s = super::error::strings_model(names@);
    let n = names.len();
    let mut k: usize = 0;
    let mut found = false;
    while k < n && !found
        invariant
            n == names@.len(),
            s == super::error::strings_model(names@),
            k <= n,
            !found ==> first_repeat(s, 0) == first_repeat(s, k as int),
            found ==> k < n && first_repeat(s, 0) == Some(k as int),
        decreases n - k + (if found { 0int } else { 1int }),
    {
        let mut j: usize = 0;
        while j < k
            invariant
                j <= k < n,
                n == names@.len(),
                s == super::error::strings_model(names@),
                forall|q: int| 0 <= q < j ==> s[q] != s[k as int],
            ensures
                j <= k,
                j < k ==> s[j as int] == s[k as int],
                forall|q: int| 0 <= q < j ==> s[q] != s[k as int],
            decreases k - j,
        {
            assert(s[j as int] == names@[j as int]@);
            assert(s[k as int] == names@[k as int]@);
            if names[j] == names[k] {
                break;
            }
            j = j + 1;
        }
        if j < k {
            proof {
                assert(s[j as int] == names@[j as int]@);
                assert(s.take(k as int)[j as int] == s[k as int]);
            }
            found = true;
        } else {
            proof {
                assert(!s.take(k as int).contains(s[k as int])) by {
                    if s.take(k as int).contains(s[k as int]) {
                        let q = choose|q: int| 0 <= q < k && s.take(k as int)[q] == s[k as int];
                        assert(s[q] != s[k as int]);
                    }
                }
            }
            k = k + 1;
        }
    }
    if !found {
        return Ok(());
    }
    let mut out: Vec<String> = Vec::new();
    let mut i: usize = 0;
    assert(s.take(0) =~= Seq::<Seq<char>>::empty());
    while i < n
        invariant
            n == names@.len(),
            s == super::error::strings_model(names@),
            i <= n,
            super::error::strings_model(out@) == repeated(s.take(i as int)),
        decreases n - i,
    {
        let mut c: usize = 0;
        let mut j: usize = 0;
        while j < i
            invariant
                j <= i < n,
                n == names@.len(),
                s == super::error::strings_model(names@),
                c <= j,
                c == count_of(s.take(j as int), s[i as int]),
            decreases i - j,
        {
            assert(s.take(j + 1) =~= s.take(j as int).push(s[j as int]));
            assert(s.take(j + 1).drop_last() =~= s.take(j as int));
            assert(s[j as int] == names@[j as int]@ && s[i as int] == names@[i as int]@);
            if names[j] == names[i] {
                c = c + 1;
            }
            j = j + 1;
        }
        let ghost before = super::error::strings_model(out@);
        assert(s.take(i + 1) =~= s.take(i as int).push(s[i as int]));
        assert(s.take(i + 1).drop_last() =~= s.take(i as int));
        if c == 1 {
            let name = names[i].clone();
            out.push(name);
            assert(super::error::strings_model(out@) =~= before.push(name@));
        }
        i = i + 1;
    }
    assert(s.take(n as int) =~= s);
    Err(out)
}


pub open spec fn check_result(r: Result<(), CompileError>, context: Seq<char>, p: Option<ProblemModel>) -> bool {
    match invalid(context, p) {
        None => r is Ok,
        Some(e) => (r matches Err(x) && x@ == e),
    }
}

fn invalid_error(context: String, problem: Problem) -> (r: CompileError)
    ensures
        r@ == (ErrorModel::Invalid { context: context@, problem: problem@ }),
{
    CompileError::Invalid { context, problem }
}

fn member_names(members: &Vec<super::types::StructMember>) -> (r: Vec<String>)
    ensures
        super::error::strings_model(r@) == struct_names(super::types::struct_members_model(members@)),
{
    let mut out: Vec<String> = Vec::new();
    let mut i: usize = 0;
    while i < members.len()
        invariant
            i <= members@.len(),
            super::error::strings_model(out@) == struct_names(
                super::types::struct_members_model(members@),
            ).take(i as int),
        decreases members.len() - i,
    {
        let ghost before = super::error::strings_model(out@);
        let name = members[i].name.clone();
        out.push(name);
        assert(super::error::strings_model(out@) =~= before.push(name@));
        i = i + 1;
        assert(struct_names(super::types::struct_members_model(members@)).take(i as int)
            =~= before.push(name@));
    }
    assert(struct_names(super::types::struct_members_model(members@)).take(i as int)
        =~= struct_names(super::types::struct_members_model(members@)));
    out
}

/// Verifies that a `pack` has unique member names and that each member is plain old data.
fn verify_pack(world: &World, ty: &Type, value: &super::types::Pack, fuel: usize) -> (r: Result<
    (),
    CompileError,
>)
    requires
        closed(world@.defs),
        forall|m: int|
            0 <= m < value.members@.len() ==> has_id(world@.defs, #[trigger] value.members@[m].ty),
    ensures
        check_result(
            r,
            "pack "@ + ty.ident@,
            pack_problem(world@.defs, super::types::struct_members_model(value.members@), fuel as nat),
        ),
{
    let ghost defs = world@.defs;
    let ghost ms = super::types::struct_members_model(value.members@);
    let context = concat("pack ", ty.ident.as_str());
    let names = member_names(&value.members);
    if let Err(dups) = verify_unique(&names) {
        return Err(invalid_error(context, Problem::DuplicateNames { names: dups }));
    }
    let ghost tys = member_tys(ms);
    let mut i: usize = 0;
    while i < value.members.len()
        invariant
            context@ == "pack "@ + ty.ident@,
            unique_problem(struct_names(ms)) is None,
            defs == world@.defs,
            closed(defs),
            ms == super::types::struct_members_model(value.members@),
            tys == member_tys(ms),
            forall|m: int|
                0 <= m < value.members@.len() ==> has_id(defs, #[trigger] value.members@[m].ty),
            i <= value.members@.len(),
            pod_problem_list(defs, tys, 0, fuel as nat) == pod_problem_list(
                defs,
                tys,
                i as int,
                fuel as nat,
            ),
        decreases value.members.len() - i,
    {
        assert(tys[i as int] == value.members@[i as int].ty);
        if let Some(n) = pod_check(world, value.members[i].ty, fuel) {
            return Err(invalid_error(context, Problem::NotPod { ty: n }));
        }
        i = i + 1;
    }
    Ok(())
}

/// Verifies that a `seq` has unique member names.
fn verify_sequence(ty: &Type, value: &super::types::Sequence) -> (r: Result<(), CompileError>)
    ensures
        check_result(
            r,
            "sequence "@ + ty.ident@,
            unique_problem(struct_names(super::types::struct_members_model(value.members@))),
        ),
{
    let names = member_names(&value.members);
    if let Err(dups) = verify_unique(&names) {
        return Err(
            invalid_error(
                concat("sequence ", ty.ident.as_str()),
                Problem::DuplicateNames { names: dups },
            ),
        );
    }
    Ok(())
}

/// Verifies that a dynamic array has an unsigned length type and a non-`void` element type.
fn verify_dynarray(world: &World, ty: &Type, value: &super::types::DynamicArray, fuel: usize) -> (r:
    Result<(), CompileError>)
    requires
        closed(world@.defs),
        has_id(world@.defs, value.size_type),
        has_id(world@.defs, value.value_type),
    ensures
        check_result(
            r,
            "dynarray "@ + ty.ident@,
            dynarray_problem(world@.defs, value.size_type, value.value_type, fuel as nat),
        ),
{
    let context = concat("dynarray ", ty.ident.as_str());
    if let Err(n) = int_of_exec(world, value.size_type, Some(Signedness::Unsigned), fuel) {
        return Err(invalid_error(context, Problem::NotUnsignedInteger { ty: n }));
    }
    match &world.lookup(value.value_type).kind {
        TypeKind::Void => Err(invalid_error(context, Problem::VoidElement)),
        _ => Ok(()),
    }
}

/// Verifies that a constant has an integer type that holds its value.
fn verify_const(world: &World, ty: &Type, value: &super::types::Const, fuel: usize) -> (r: Result<
    (),
    CompileError,
>)
    requires
        closed(world@.defs),
        has_id(world@.defs, value.ty),
    ensures
        check_result(r, "const "@ + ty.ident@, const_problem(world@.defs, value.ty, value.value, fuel as nat)),
{
    let context = concat("const ", ty.ident.as_str());
    let p = match int_of_exec(world, value.ty, None, fuel) {
        Ok(p) => p,
        Err(n) => {
            return Err(invalid_error(context, Problem::NotPrimitive { ty: n }));
        },
    };
    proof {
        lemma_int_of(world@.defs, value.ty, None, fuel as nat);
    }
    if p.verify_can_fit(value.value as i128).is_err() {
        proof {
            reveal_strlit("value");
        }
        return Err(
            invalid_error(
                context,
                Problem::DoesNotFit {
                    what: "value".to_string(),
                    value: value.value as i128,
                    primitive: p,
                    reason: super::types::FitError::OutOfRange,
                },
            ),
        );
    }
    Ok(())
}

/// Verifies that a fixed array has a positive length and a plain-old-data element type.
fn verify_fixarray(world: &World, ty: &Type, value: &super::types::FixedArray, fuel: usize) -> (r:
    Result<(), CompileError>)
    requires
        closed(world@.defs),
        has_id(world@.defs, value.value_type),
    ensures
        check_result(
            r,
            "fixarray "@ + ty.ident@,
            fixarray_problem(world@.defs, value.count, value.value_type, fuel as nat),
        ),
{
    let context = concat("fixarray ", ty.ident.as_str());
    if value.count == 0 {
        return Err(invalid_error(context, Problem::EmptyFixedArray));
    }
    if let Some(n) = pod_check(world, value.value_type, fuel) {
        return Err(invalid_error(context, Problem::NotPod { ty: n }));
    }
    Ok(())
}

/// Verifies that a variant's tag is an unsigned integer and that its discriminants are
/// distinct and fit the tag.
fn verify_variant(world: &World, ty: &Type, value: &super::types::Variant, fuel: usize) -> (r:
    Result<(), CompileError>)
    requires
        closed(world@.defs),
        has_id(world@.defs, value.discriminant),
    ensures
        check_result(
            r,
            "variant "@ + ty.ident@,
            variant_problem(
                world@.defs,
                value.discriminant,
                super::types::variant_members_model(value.members@),
                fuel as nat,
            ),
        ),
{
    let ghost ms = super::types::variant_members_model(value.members@);
    let context = concat("variant ", ty.ident.as_str());
    let p = match int_of_exec(world, value.discriminant, Some(Signedness::Unsigned), fuel) {
        Ok(p) => p,
        Err(n) => {
            return Err(invalid_error(context, Problem::NotUnsignedInteger { ty: n }));
        },
    };
    proof {
        lemma_int_of(world@.defs, value.discriminant, Some(Signedness::Unsigned), fuel as nat);
    }
    let mut i: usize = 0;
    while i < value.members.len()
        invariant
            context@ == "variant "@ + ty.ident@,
            int_of(world@.defs, value.discriminant, Some(Signedness::Unsigned), fuel as nat) == Ok::<
                Primitive,
                Seq<char>,
            >(p),
            ms == super::types::variant_members_model(value.members@),
            p.dtype == Datatype::Integer,
            i <= value.members@.len(),
            cases_problem(ms, p, 0) == cases_problem(ms, p, i as int),
        decreases value.members.len() - i,
    {
        let v = value.members[i].value;
        assert(ms[i as int].value == v);
        let mut j: usize = 0;
        while j < i
            invariant
                context@ == "variant "@ + ty.ident@,
                int_of(world@.defs, value.discriminant, Some(Signedness::Unsigned), fuel as nat)
                    == Ok::<Primitive, Seq<char>>(p),
                cases_problem(ms, p, 0) == cases_problem(ms, p, i as int),
                j <= i < value.members@.len(),
                ms == super::types::variant_members_model(value.members@),
                v == ms[i as int].value,
                forall|q: int| 0 <= q < j ==> (#[trigger] ms[q]).value != v,
            decreases i - j,
        {
            assert(ms[j as int].value == value.members@[j as int].value);
            if value.members[j].value == v {
                return Err(invalid_error(context, Problem::DuplicateDiscriminant { value: v }));
            }
            j = j + 1;
        }
        if p.verify_can_fit(v as i128).is_err() {
            return Err(
                invalid_error(
                    context,
                    Problem::DoesNotFit {
                        what: "discriminant".to_string(),
                        value: v as i128,
                        primitive: p,
                        reason: super::types::FitError::OutOfRange,
                    },
                ),
            );
        }
        i = i + 1;
    }
    Ok(())
}


/// Whether a bitfield member's type is an integer or an enum over an integer.
fn verify_bitfield_member_type(world: &World, id: TypeID, fuel: usize) -> (b: bool)
    requires
        closed(world@.defs),
        has_id(world@.defs, id),
    ensures
        b == bit_member_type_ok(world@.defs, id, fuel as nat),
    decreases fuel,
{
    let ghost defs = world@.defs;
    let ty = world.lookup(id);
    match &ty.kind {
        TypeKind::Alias(a) => {
            if fuel == 0 {
                return false;
            }
            proof {
                assert(refs(kind_of(defs, id))[0] == a.other);
                lemma_closed_ref(defs, id, a.other);
            }
            verify_bitfield_member_type(world, a.other, fuel - 1)
        },
        TypeKind::Enum(e) => {
            proof {
                assert(refs(kind_of(defs, id))[0] == e.underlying);
                lemma_closed_ref(defs, id, e.underlying);
            }
            verify_is_integer(world, e.underlying, fuel).is_ok()
        },
        TypeKind::Primitive(p) => p.is_integer(),
        _ => false,
    }
}

fn enum_names_exec(members: &Vec<crate::intermediate::EnumMember>, default: &Option<
    crate::intermediate::EnumMember,
>) -> (r: Vec<String>)
    ensures
        super::error::strings_model(r@) == match *default {
            Some(d) => enum_names(crate::intermediate::ast::enum_members_model(members@)).push(
                d@.name,
            ),
            None => enum_names(crate::intermediate::ast::enum_members_model(members@)),
        },
{
    let ghost all = enum_names(crate::intermediate::ast::enum_members_model(members@));
    let mut out: Vec<String> = Vec::new();
    let mut i: usize = 0;
    while i < members.len()
        invariant
            i <= members@.len(),
            all == enum_names(crate::intermediate::ast::enum_members_model(members@)),
            super::error::strings_model(out@) == all.take(i as int),
        decreases members.len() - i,
    {
        let ghost before = super::error::strings_model(out@);
        let name = members[i].name.clone();
        out.push(name);
        assert(super::error::strings_model(out@) =~= before.push(name@));
        i = i + 1;
        assert(all.take(i as int) =~= before.push(name@));
    }
    assert(all.take(i as int) =~= all);
    if let Some(d) = default {
        let ghost before = super::error::strings_model(out@);
        let name = d.name.clone();
        out.push(name);
        assert(super::error::strings_model(out@) =~= before.push(name@));
    }
    out
}

/// Verifies an enum: unique names and values, an unsigned integer base, and members and
/// default that fit it.
fn verify_enum(world: &World, ty: &Type, value: &super::types::Enum, fuel: usize) -> (r: Result<
    (),
    CompileError,
>)
    requires
        closed(world@.defs),
        has_id(world@.defs, value.underlying),
    ensures
        check_result(
            r,
            "enum "@ + ty.ident@,
            enum_problem(
                world@.defs,
                value.underlying,
                crate::intermediate::ast::enum_members_model(value.members@),
                super::types::opt_enum_member(value.default),
                fuel as nat,
            ),
        ),
{
    let ghost ms = crate::intermediate::ast::enum_members_model(value.members@);
    let context = concat("enum ", ty.ident.as_str());
    let names = enum_names_exec(&value.members, &value.default);
    let ghost nm = super::error::strings_model(names@);
    if let Err(dups) = verify_unique(&names) {
        return Err(invalid_error(context, Problem::DuplicateNames { names: dups }));
    }
    let mut i: usize = 0;
    while i < value.members.len()
        invariant
            nm == match value.default {
                Some(d) => enum_names(ms).push(d@.name),
                None => enum_names(ms),
            },
            unique_problem(nm) is None,
            context@ == "enum "@ + ty.ident@,
            ms == crate::intermediate::ast::enum_members_model(value.members@),
            i <= value.members@.len(),
            repeated_value(ms, 0) == repeated_value(ms, i as int),
        decreases value.members.len() - i,
    {
        let v = value.members[i].value;
        assert(ms[i as int].value == v);
        let mut j: usize = 0;
        while j < i
            invariant
                nm == match value.default {
                    Some(d) => enum_names(ms).push(d@.name),
                    None => enum_names(ms),
                },
                unique_problem(nm) is None,
                context@ == "enum "@ + ty.ident@,
                repeated_value(ms, 0) == repeated_value(ms, i as int),
                j <= i < value.members@.len(),
                ms == crate::intermediate::ast::enum_members_model(value.members@),
                v == ms[i as int].value,
                forall|q: int| 0 <= q < j ==> (#[trigger] ms[q]).value != v,
            decreases i - j,
        {
            assert(ms[j as int].value == value.members@[j as int].value);
            if value.members[j].value == v {
                assert(ms[i as int].name == value.members@[i as int].name@);
                return Err(
                    invalid_error(
                        context,
                        Problem::DuplicateEnumValue { name: value.members[i].name.clone(), value: v },
                    ),
                );
            }
            j = j + 1;
        }
        i = i + 1;
    }
    let p = match int_of_exec(world, value.underlying, Some(Signedness::Unsigned), fuel) {
        Ok(p) => p,
        Err(n) => {
            return Err(invalid_error(context, Problem::NotUnsignedInteger { ty: n }));
        },
    };
    proof {
        lemma_int_of(world@.defs, value.underlying, Some(Signedness::Unsigned), fuel as nat);
    }
    let mut i: usize = 0;
    while i < value.members.len()
        invariant
            nm == match value.default {
                Some(d) => enum_names(ms).push(d@.name),
                None => enum_names(ms),
            },
            unique_problem(nm) is None,
            repeated_value(ms, 0) is None,
            int_of(world@.defs, value.underlying, Some(Signedness::Unsigned), fuel as nat) == Ok::<
                Primitive,
                Seq<char>,
            >(p),
            context@ == "enum "@ + ty.ident@,
            ms == crate::intermediate::ast::enum_members_model(value.members@),
            p.dtype == Datatype::Integer,
            i <= value.members@.len(),
            misfit_member(ms, p, 0) == misfit_member(ms, p, i as int),
        decreases value.members.len() - i,
    {
        let m = &value.members[i];
        assert(ms[i as int] == m@);
        if p.verify_can_fit(m.value as i128).is_err() {
            return Err(
                invalid_error(
                    context,
                    Problem::DoesNotFit {
                        what: concat("member ", m.name.as_str()),
                        value: m.value as i128,
                        primitive: p,
                        reason: super::types::FitError::OutOfRange,
                    },
                ),
            );
        }
        i = i + 1;
    }
    if let Some(d) = &value.default {
        if p.verify_can_fit(d.value as i128).is_err() {
            return Err(
                invalid_error(
                    context,
                    Problem::DoesNotFit {
                        what: concat("default ", d.name.as_str()),
                        value: d.value as i128,
                        primitive: p,
                        reason: super::types::FitError::OutOfRange,
                    },
                ),
            );
        }
    }
    Ok(())
}

/// Verifies a bitfield: unique names, an unsigned base, and member types and ranges that
/// are valid, inside the base's width and disjoint.
fn verify_bitfld(world: &World, ty: &Type, value: &super::types::Bitfld, fuel: usize) -> (r: Result<
    (),
    CompileError,
>)
    requires
        closed(world@.defs),
        has_id(world@.defs, value.underlying),
        forall|m: int|
            0 <= m < value.members@.len() ==> has_id(world@.defs, #[trigger] value.members@[m].underlying),
    ensures
        check_result(
            r,
            "bitfld "@ + ty.ident@,
            bitfld_problem(
                world@.defs,
                value.underlying,
                super::types::bitfld_members_model(value.members@),
                fuel as nat,
            ),
        ),
{
    let ghost defs = world@.defs;
    let ghost ms = super::types::bitfld_members_model(value.members@);
    let context = concat("bitfld ", ty.ident.as_str());
    let mut names: Vec<String> = Vec::new();
    let mut i: usize = 0;
    while i < value.members.len()
        invariant
            i <= value.members@.len(),
            ms == super::types::bitfld_members_model(value.members@),
            super::error::strings_model(names@) == bit_names(ms).take(i as int),
        decreases value.members.len() - i,
    {
        let ghost before = super::error::strings_model(names@);
        let name = value.members[i].name.clone();
        names.push(name);
        assert(super::error::strings_model(names@) =~= before.push(name@));
        i = i + 1;
        assert(bit_names(ms).take(i as int) =~= before.push(name@));
    }
    assert(bit_names(ms).take(i as int) =~= bit_names(ms));
    if let Err(dups) = verify_unique(&names) {
        return Err(invalid_error(context, Problem::DuplicateNames { names: dups }));
    }
    let base = match &world.lookup(value.underlying).kind {
        TypeKind::Enum(e) => {
            proof {
                assert(refs(kind_of(defs, value.underlying))[0] == e.underlying);
                lemma_closed_ref(defs, value.underlying, e.underlying);
            }
            int_of_exec(world, e.underlying, Some(Signedness::Unsigned), fuel)
        },
        _ => int_of_exec(world, value.underlying, Some(Signedness::Unsigned), fuel),
    };
    let p = match base {
        Ok(p) => p,
        Err(n) => {
            return Err(invalid_error(context, Problem::NotUnsignedInteger { ty: n }));
        },
    };
    let width = p.bits();
    let mut i: usize = 0;
    while i < value.members.len()
        invariant
            unique_problem(bit_names(ms)) is None,
            bits_base(defs, value.underlying, fuel as nat) == Ok::<Primitive, Seq<char>>(p),
            width == p.bit_count(),
            context@ == "bitfld "@ + ty.ident@,
            defs == world@.defs,
            closed(defs),
            ms == super::types::bitfld_members_model(value.members@),
            forall|m: int|
                0 <= m < value.members@.len() ==> has_id(defs, #[trigger] value.members@[m].underlying),
            i <= value.members@.len(),
            bit_members_problem(defs, ms, 0, width, fuel as nat) == bit_members_problem(
                defs,
                ms,
                i as int,
                width,
                fuel as nat,
            ),
        decreases value.members.len() - i,
    {
        let m = &value.members[i];
        assert(ms[i as int] == m@);
        if !verify_bitfield_member_type(world, m.underlying, fuel) {
            let tname = world.lookup(m.underlying).ident.clone();
            return Err(
                invalid_error(context, Problem::BadMemberType { member: m.name.clone(), ty: tname }),
            );
        }
        let start = m.range.start;
        let end = m.range.end;
        if start > end {
            return Err(
                invalid_error(
                    context,
                    Problem::RangeReversed { member: m.name.clone(), start, end },
                ),
            );
        }
        if end >= width {
            return Err(
                invalid_error(context, Problem::RangeTooWide { member: m.name.clone(), end, width }),
            );
        }
        let mut j: usize = 0;
        while j < i
            invariant
                unique_problem(bit_names(ms)) is None,
                bits_base(defs, value.underlying, fuel as nat) == Ok::<Primitive, Seq<char>>(p),
                width == p.bit_count(),
                bit_member_type_ok(defs, ms[i as int].underlying, fuel as nat),
                ms[i as int].range.start <= ms[i as int].range.end < width,
                context@ == "bitfld "@ + ty.ident@,
                bit_members_problem(defs, ms, 0, width, fuel as nat) == bit_members_problem(
                    defs,
                    ms,
                    i as int,
                    width,
                    fuel as nat,
                ),
                j <= i < value.members@.len(),
                ms == super::types::bitfld_members_model(value.members@),
                m.range == ms[i as int].range,
                m@ == ms[i as int],
                defs == world@.defs,
                start == ms[i as int].range.start,
                end == ms[i as int].range.end,
                forall|q: int| 0 <= q < j ==> !overlaps(#[trigger] ms[q].range, ms[i as int].range),
            decreases i - j,
        {
            let other = value.members[j].range;
            assert(ms[j as int].range == other);
            if other.start <= end && start <= other.end {
                assert(overlaps(ms[j as int].range, ms[i as int].range));
                return Err(invalid_error(context, Problem::Overlap { member: m.name.clone() }));
            }
            j = j + 1;
        }
        i = i + 1;
    }
    Ok(())
}


/// Checks one definition against the rules of its kind.
fn verify_def(world: &World, item: &Type, fuel: usize) -> (r: Result<(), CompileError>)
    requires
        closed(world@.defs),
        forall|d: TypeID| #[trigger] refs(item.kind@).contains(d) ==> has_id(world@.defs, d),
    ensures
        match def_problem(world@.defs, item@, fuel as nat) {
            None => r is Ok,
            Some(e) => (r matches Err(x) && x@ == e),
        },
{
    let ghost k = item.kind@;
    match &item.kind {
        TypeKind::Pack(v) => {
            proof {
                assert forall|m: int| 0 <= m < v.members@.len() implies has_id(
                    world@.defs,
                    #[trigger] v.members@[m].ty,
                ) by {
                    assert(refs(k)[m] == v.members@[m].ty);
            assert(refs(k).contains(v.members@[m].ty));
                }
            }
            verify_pack(world, item, v, fuel)
        },
        TypeKind::Enum(v) => {
            assert(refs(k)[0] == v.underlying);
            assert(refs(k).contains(v.underlying));
            verify_enum(world, item, v, fuel)
        },
        TypeKind::Bitfld(v) => {
            proof {
                assert(refs(k)[0] == v.underlying);
            assert(refs(k).contains(v.underlying));
                assert forall|m: int| 0 <= m < v.members@.len() implies has_id(
                    world@.defs,
                    #[trigger] v.members@[m].underlying,
                ) by {
                    assert(refs(k)[m + 1] == v.members@[m].underlying);
            assert(refs(k).contains(v.members@[m].underlying));
                }
            }
            verify_bitfld(world, item, v, fuel)
        },
        TypeKind::Variant(v) => {
            assert(refs(k)[0] == v.discriminant);
            assert(refs(k).contains(v.discriminant));
            verify_variant(world, item, v, fuel)
        },
        TypeKind::Sequence(v) => verify_sequence(item, v),
        TypeKind::DynamicArray(v) => {
            assert(refs(k)[0] == v.size_type);
            assert(refs(k).contains(v.size_type));
            assert(refs(k)[1] == v.value_type);
            assert(refs(k).contains(v.value_type));
            verify_dynarray(world, item, v, fuel)
        },
        TypeKind::FixedArray(v) => {
            assert(refs(k)[0] == v.value_type);
            assert(refs(k).contains(v.value_type));
            verify_fixarray(world, item, v, fuel)
        },
        TypeKind::Const(v) => {
            assert(refs(k)[0] == v.ty);
            assert(refs(k).contains(v.ty));
            verify_const(world, item, v, fuel)
        },
        _ => Ok(()),
    }
}

/// Checks every definition of the world, in order, and returns the first rule broken.
pub fn verify(world: World) -> (r: Result<World, CompileError>)
    requires
        closed(world@.defs),
    ensures
        match world_problem(world@.defs, 0) {
            None => (r matches Ok(w) && w@ == world@),
            Some(e) => (r matches Err(x) && x@ == e),
        },
{
    let ghost d = world@.defs;
    let defs = world.definitions();
    let fuel = defs.len();
    let mut i: usize = 0;
    while i < fuel
        invariant
            d == world@.defs,
            d == defs_model(defs@),
            closed(d),
            fuel == defs@.len(),
            i <= fuel,
            world_problem(d, 0) == world_problem(d, i as int),
        decreases fuel - i,
    {
        assert(d[i as int].1 == defs@[i as int].1@);
        let res = verify_def(&world, &defs[i].1, fuel);
        if let Err(e) = res {
            return Err(e);
        }
        i = i + 1;
    }
    Ok(world)
}


impl super::types::DynamicArray {
    /// Whether the elements are plain old data, so that the array can be read in bulk.
    pub fn is_aggregate(&self, world: &World) -> (b: bool)
        requires
            closed(world@.defs),
            has_id(world@.defs, self.value_type),
        ensures
            b == is_pod_spec(world@.defs, self.value_type, world@.defs.len() as nat),
    {
        type_is_pod(world, self.value_type, world.definitions().len())
    }
}

impl super::types::FixedArray {
    /// Whether the elements are plain old data, so that the array can be read in bulk.
    pub fn is_aggregate(&self, world: &World) -> (b: bool)
        requires
            closed(world@.defs),
            has_id(world@.defs, self.value_type),
        ensures
            b == is_pod_spec(world@.defs, self.value_type, world@.defs.len() as nat),
    {
        type_is_pod(world, self.value_type, world.definitions().len())
    }
}

} // verus!
