//! Combining two compiled worlds into one.
use vstd::prelude::*;

use super::error::{CompileError, ErrorModel};
use super::types::{
    bitfld_members_model, defs_model, struct_members_model, variant_members_model, Alias,
    BitfldMember, BitfldMemberModel, Bitfld, Const, DynamicArray, Enum, FixedArray, KindModel, Pack,
    Sequence, StructMember, StructMemberModel, Type, TypeID, TypeKind, TypeModel, Variant,
    VariantMember, VariantMemberModel, World, WorldModel,
};
use super::verify::refs;
use crate::intermediate::source::LocationModel;

verus! {

pub open spec fn is_builtin_kind(k: KindModel) -> bool {
    k is Primitive || k is Void
}

/// Number of entries before `k` named `name`.
pub open spec fn count_named(all: Seq<(TypeID, TypeModel)>, name: Seq<char>, k: int) -> nat
    decreases k,
{
    if k <= 0 {
        0
    } else {
        count_named(all, name, k - 1) + if all[k - 1].1.ident == name {
            1nat
        } else {
            0nat
        }
    }
}

/// Number of entries before `j` with the same name as entry `j`.
pub open spec fn earlier_same_name(all: Seq<(TypeID, TypeModel)>, j: int) -> nat {
    count_named(all, all[j].1.ident, j)
}

pub proof fn lemma_count_named(all: Seq<(TypeID, TypeModel)>, name: Seq<char>, k: int)
    requires
        0 <= k <= all.len(),
        count_named(all, name, k) > 0,
    ensures
        exists|i: int| 0 <= i < k && all[i].1.ident == name,
    decreases k,
{
    if all[k - 1].1.ident != name {
        lemma_count_named(all, name, k - 1);
    }
}

/// Index of the first entry, from `j` on, that is the second one with its name and is not
/// a builtin: a conflict between definitions.
pub open spec fn conflict_from(all: Seq<(TypeID, TypeModel)>, j: int) -> Option<int>
    decreases all.len() - j,
{
    if j < 0 || j >= all.len() {
        None
    } else if earlier_same_name(all, j) == 1 && !is_builtin_kind(all[j].1.kind) {
        Some(j)
    } else {
        conflict_from(all, j + 1)
    }
}

/// The largest identifier of a non-empty sequence.
pub open spec fn max_id(s: Seq<TypeID>) -> u32
    decreases s.len(),
{
    if s.len() <= 1 {
        s[0].0
    } else {
        let m = max_id(s.drop_last());
        if s.last().0 > m {
            s.last().0
        } else {
            m
        }
    }
}

pub open spec fn shift(id: TypeID, base: u32) -> TypeID {
    TypeID((id.0 + base) as u32)
}

pub open spec fn shift_struct(ms: Seq<StructMemberModel>, base: u32) -> Seq<StructMemberModel> {
    ms.map_values(
        |m: StructMemberModel| StructMemberModel { name: m.name, ty: shift(m.ty, base), defined_at: m.defined_at },
    )
}

pub open spec fn shift_bits(ms: Seq<BitfldMemberModel>, base: u32) -> Seq<BitfldMemberModel> {
    ms.map_values(
        |m: BitfldMemberModel|
            BitfldMemberModel {
                name: m.name,
                underlying: shift(m.underlying, base),
                range: m.range,
                defined_at: m.defined_at,
            },
    )
}

pub open spec fn shift_cases(ms: Seq<VariantMemberModel>, base: u32) -> Seq<VariantMemberModel> {
    ms.map_values(
        |m: VariantMemberModel| VariantMemberModel { ty: shift(m.ty, base), value: m.value, defined_at: m.defined_at },
    )
}

/// A body with every identifier moved up by `base`.
pub open spec fn shift_kind(k: KindModel, base: u32) -> KindModel {
    match k {
        KindModel::Alias { other } => KindModel::Alias { other: shift(other, base) },
        KindModel::Pack { members } => KindModel::Pack { members: shift_struct(members, base) },
        KindModel::Enum { underlying, members, default } => KindModel::Enum {
            underlying: shift(underlying, base),
            members,
            default,
        },
        KindModel::Bitfld { underlying, members } => KindModel::Bitfld {
            underlying: shift(underlying, base),
            members: shift_bits(members, base),
        },
        KindModel::Variant { discriminant, members } => KindModel::Variant {
            discriminant: shift(discriminant, base),
            members: shift_cases(members, base),
        },
        KindModel::Sequence { members } => KindModel::Sequence { members: shift_struct(members, base) },
        KindModel::DynamicArray { size_type, value_type } => KindModel::DynamicArray {
            size_type: shift(size_type, base),
            value_type: shift(value_type, base),
        },
        KindModel::FixedArray { count, value_type } => KindModel::FixedArray {
            count,
            value_type: shift(value_type, base),
        },
        KindModel::Const { ty, value } => KindModel::Const { ty: shift(ty, base), value },
        KindModel::Primitive { primitive } => KindModel::Primitive { primitive },
        KindModel::Void => KindModel::Void,
    }
}

pub open spec fn shift_def(d: (TypeID, TypeModel), base: u32) -> (TypeID, TypeModel) {
    (
        shift(d.0, base),
        TypeModel { ident: d.1.ident, defined_at: d.1.defined_at, kind: shift_kind(d.1.kind, base) },
    )
}

pub open spec fn shift_defs(ds: Seq<(TypeID, TypeModel)>, base: u32) -> Seq<(TypeID, TypeModel)> {
    ds.map_values(|d: (TypeID, TypeModel)| shift_def(d, base))
}

pub open spec fn shift_ids(s: Seq<TypeID>, base: u32) -> Seq<TypeID> {
    s.map_values(|id: TypeID| shift(id, base))
}

/// Every identifier of `w`, moved up by `base`, is still a `u32`.
pub open spec fn shiftable(w: WorldModel, base: u32) -> bool {
    &&& forall|i: int| 0 <= i < w.sorted.len() ==> (#[trigger] w.sorted[i]).0 + base <= u32::MAX
    &&& forall|i: int| 0 <= i < w.defs.len() ==> (#[trigger] w.defs[i]).0.0 + base <= u32::MAX
    &&& forall|i: int, d: TypeID|
        0 <= i < w.defs.len() && #[trigger] refs(w.defs[i].1.kind).contains(d) ==> d.0 + base
            <= u32::MAX
}

/// Entries of `first` whose identifier is not among `ids`: a later entry with the same
/// identifier replaces an earlier one.
pub open spec fn not_replaced(first: Seq<(TypeID, TypeModel)>, ids: Seq<TypeID>) -> Seq<(TypeID, TypeModel)> {
    first.filter(|d: (TypeID, TypeModel)| !ids.contains(d.0))
}

/// What merging `other` into `w` gives.
pub open spec fn merge_result(r: Result<World, CompileError>, w: WorldModel, other: WorldModel) -> bool {
    let all = w.defs + other.defs;
    match conflict_from(all, 0) {
        Some(j) => (r matches Err(x) && x@ == ErrorModel::ConflictingDefinitions {
            name: all[j].1.ident,
            first: w.defs[super::types::def_index_by_name(w.defs, all[j].1.ident)].1.defined_at,
            second: all[j].1.defined_at,
        }),
        None => if w.sorted.len() == 0 {
            (r matches Err(x) && x@ == ErrorModel::EmptyWorld)
        } else {
            let base = max_id(w.sorted);
            let moved = shift_defs(other.defs, base);
            (r matches Ok(m) && m@ == WorldModel {
                defs: not_replaced(w.defs, moved.map_values(|d: (TypeID, TypeModel)| d.0)) + moved,
                sorted: w.sorted + shift_ids(other.sorted, base),
                module_name: w.module_name,
            })
        },
    }
}

/// Merging worlds whose names do not clash (builtins aside) succeeds when the first world
/// is not empty: the result keeps the first world's name, lists its order first and then
/// the second world's order moved up by the largest identifier of the first, and holds
/// every definition of the second world with its identifiers moved up alike.
pub proof fn lemma_merge_without_conflict(r: Result<World, CompileError>, w: WorldModel, other: WorldModel)
    requires
        merge_result(r, w, other),
        conflict_from(w.defs + other.defs, 0) is None,
        w.sorted.len() > 0,
    ensures
        r is Ok,
        r->Ok_0@.module_name == w.module_name,
        r->Ok_0@.sorted == w.sorted + shift_ids(other.sorted, max_id(w.sorted)),
        forall|i: int|
            0 <= i < other.defs.len() ==> r->Ok_0@.defs.contains(shift_def(#[trigger] other.defs[i], max_id(w.sorted))),
{
    let base = max_id(w.sorted);
    let moved = shift_defs(other.defs, base);
    let kept = not_replaced(w.defs, moved.map_values(|d: (TypeID, TypeModel)| d.0));
    assert forall|i: int| 0 <= i < other.defs.len() implies r->Ok_0@.defs.contains(
        shift_def(#[trigger] other.defs[i], base),
    ) by {
        assert(r->Ok_0@.defs[kept.len() + i] == moved[i]);
    }
}

// ---------------------------------------------------------------------------
// Executable merge
// ---------------------------------------------------------------------------
fn shift_exec(id: TypeID, base: u32) -> (r: TypeID)
    requires
        id.0 + base <= u32::MAX,
    ensures
        r == shift(id, base),
{
    TypeID(id.0 + base)
}

fn shift_struct_members(ms: &Vec<StructMember>, base: u32) -> (r: Vec<StructMember>)
    requires
        forall|i: int| 0 <= i < ms@.len() ==> (#[trigger] ms@[i]).ty.0 + base <= u32::MAX,
    ensures
        struct_members_model(r@) == shift_struct(struct_members_model(ms@), base),
{
    let mut out: Vec<StructMember> = Vec::new();
    let mut i: usize = 0;
    while i < ms.len()
        invariant
            i <= ms@.len(),
            forall|q: int| 0 <= q < ms@.len() ==> (#[trigger] ms@[q]).ty.0 + base <= u32::MAX,
            struct_members_model(out@) == shift_struct(struct_members_model(ms@), base).take(i as int),
        decreases ms.len() - i,
    {
        let m = &ms[i];
        let ghost before = struct_members_model(out@);
        let moved = StructMember {
            name: m.name.clone(),
            ty: shift_exec(m.ty, base),
            defined_at: m.defined_at.clone(),
        };
        out.push(moved);
        assert(struct_members_model(out@) =~= before.push(moved@));
        i = i + 1;
        assert(shift_struct(struct_members_model(ms@), base).take(i as int) =~= before.push(moved@));
    }
    assert(shift_struct(struct_members_model(ms@), base).take(i as int) =~= shift_struct(
        struct_members_model(ms@),
        base,
    ));
    out
}

fn shift_bit_members(ms: &Vec<BitfldMember>, base: u32) -> (r: Vec<BitfldMember>)
    requires
        forall|i: int| 0 <= i < ms@.len() ==> (#[trigger] ms@[i]).underlying.0 + base <= u32::MAX,
    ensures
        bitfld_members_model(r@) == shift_bits(bitfld_members_model(ms@), base),
{
    let mut out: Vec<BitfldMember> = Vec::new();
    let mut i: usize = 0;
    while i < ms.len()
        invariant
            i <= ms@.len(),
            forall|q: int| 0 <= q < ms@.len() ==> (#[trigger] ms@[q]).underlying.0 + base <= u32::MAX,
            bitfld_members_model(out@) == shift_bits(bitfld_members_model(ms@), base).take(i as int),
        decreases ms.len() - i,
    {
        let m = &ms[i];
        let ghost before = bitfld_members_model(out@);
        let moved = BitfldMember {
            name: m.name.clone(),
            underlying: shift_exec(m.underlying, base),
            range: m.range,
            defined_at: m.defined_at.clone(),
        };
        out.push(moved);
        assert(bitfld_members_model(out@) =~= before.push(moved@));
        i = i + 1;
        assert(shift_bits(bitfld_members_model(ms@), base).take(i as int) =~= before.push(moved@));
    }
    assert(shift_bits(bitfld_members_model(ms@), base).take(i as int) =~= shift_bits(
        bitfld_members_model(ms@),
        base,
    ));
    out
}

fn shift_case_members(ms: &Vec<VariantMember>, base: u32) -> (r: Vec<VariantMember>)
    requires
        forall|i: int| 0 <= i < ms@.len() ==> (#[trigger] ms@[i]).ty.0 + base <= u32::MAX,
    ensures
        variant_members_model(r@) == shift_cases(variant_members_model(ms@), base),
{
    let mut out: Vec<VariantMember> = Vec::new();
    let mut i: usize = 0;
    while i < ms.len()
        invariant
            i <= ms@.len(),
            forall|q: int| 0 <= q < ms@.len() ==> (#[trigger] ms@[q]).ty.0 + base <= u32::MAX,
            variant_members_model(out@) == shift_cases(variant_members_model(ms@), base).take(i as int),
        decreases ms.len() - i,
    {
        let m = &ms[i];
        let ghost before = variant_members_model(out@);
        let moved = VariantMember {
            ty: shift_exec(m.ty, base),
            value: m.value,
            defined_at: m.defined_at.clone(),
        };
        out.push(moved);
        assert(variant_members_model(out@) =~= before.push(moved@));
        i = i + 1;
        assert(shift_cases(variant_members_model(ms@), base).take(i as int) =~= before.push(moved@));
    }
    assert(shift_cases(variant_members_model(ms@), base).take(i as int) =~= shift_cases(
        variant_members_model(ms@),
        base,
    ));
    out
}

/// A copy of a type with every identifier it mentions moved up by `base`.
fn shift_type(ty: &Type, base: u32) -> (r: Type)
    requires
        forall|d: TypeID| #[trigger] refs(ty.kind@).contains(d) ==> d.0 + base <= u32::MAX,
    ensures
        r@ == (TypeModel { ident: ty.ident@, defined_at: ty.defined_at@, kind: shift_kind(ty.kind@, base) }),
{
    let ghost k = ty.kind@;
    let kind = match &ty.kind {
        TypeKind::Alias(a) => {
            assert(refs(k).contains(a.other)) by { assert(refs(k)[0] == a.other); }
            TypeKind::Alias(Alias { other: shift_exec(a.other, base) })
        },
        TypeKind::Pack(p) => {
            assert forall|i: int| 0 <= i < p.members@.len() implies (#[trigger] p.members@[i]).ty.0
                + base <= u32::MAX by {
                assert(refs(k)[i] == p.members@[i].ty);
                assert(refs(k).contains(p.members@[i].ty));
            }
            TypeKind::Pack(Pack { members: shift_struct_members(&p.members, base) })
        },
        TypeKind::Enum(e) => {
            assert(refs(k).contains(e.underlying)) by { assert(refs(k)[0] == e.underlying); }
            let mut members: Vec<crate::intermediate::EnumMember> = Vec::new();
            let mut i: usize = 0;
            while i < e.members.len()
                invariant
                    i <= e.members@.len(),
                    members@.len() == i,
                    forall|q: int| 0 <= q < i ==> (#[trigger] members@[q])@ == e.members@[q]@,
                decreases e.members.len() - i,
            {
                members.push(e.members[i].clone());
                i = i + 1;
            }
            assert(crate::intermediate::ast::enum_members_model(members@)
                =~= crate::intermediate::ast::enum_members_model(e.members@));
            let default = match &e.default {
                Some(d) => Some(d.clone()),
                None => None,
            };
            TypeKind::Enum(Enum { underlying: shift_exec(e.underlying, base), members, default })
        },
        TypeKind::Bitfld(b) => {
            assert(refs(k).contains(b.underlying)) by { assert(refs(k)[0] == b.underlying); }
            assert forall|i: int| 0 <= i < b.members@.len() implies (#[trigger] b.members@[i]).underlying.0
                + base <= u32::MAX by {
                assert(refs(k)[i + 1] == b.members@[i].underlying);
                assert(refs(k).contains(b.members@[i].underlying));
            }
            TypeKind::Bitfld(
                Bitfld {
                    underlying: shift_exec(b.underlying, base),
                    members: shift_bit_members(&b.members, base),
                },
            )
        },
        TypeKind::Variant(v) => {
            assert(refs(k).contains(v.discriminant)) by { assert(refs(k)[0] == v.discriminant); }
            assert forall|i: int| 0 <= i < v.members@.len() implies (#[trigger] v.members@[i]).ty.0
                + base <= u32::MAX by {
                assert(refs(k)[i + 1] == v.members@[i].ty);
                assert(refs(k).contains(v.members@[i].ty));
            }
            TypeKind::Variant(
                Variant {
                    discriminant: shift_exec(v.discriminant, base),
                    members: shift_case_members(&v.members, base),
                },
            )
        },
        TypeKind::Sequence(sq) => {
            assert forall|i: int| 0 <= i < sq.members@.len() implies (#[trigger] sq.members@[i]).ty.0
                + base <= u32::MAX by {
                assert(refs(k)[i] == sq.members@[i].ty);
                assert(refs(k).contains(sq.members@[i].ty));
            }
            TypeKind::Sequence(Sequence { members: shift_struct_members(&sq.members, base) })
        },
        TypeKind::DynamicArray(d) => {
            assert(refs(k).contains(d.size_type)) by { assert(refs(k)[0] == d.size_type); }
            assert(refs(k).contains(d.value_type)) by { assert(refs(k)[1] == d.value_type); }
            TypeKind::DynamicArray(
                DynamicArray {
                    size_type: shift_exec(d.size_type, base),
                    value_type: shift_exec(d.value_type, base),
                },
            )
        },
        TypeKind::FixedArray(f) => {
            assert(refs(k).contains(f.value_type)) by { assert(refs(k)[0] == f.value_type); }
            TypeKind::FixedArray(FixedArray { count: f.count, value_type: shift_exec(f.value_type, base) })
        },
        TypeKind::Const(c) => {
            assert(refs(k).contains(c.ty)) by { assert(refs(k)[0] == c.ty); }
            TypeKind::Const(Const { ty: shift_exec(c.ty, base), value: c.value })
        },
        TypeKind::Primitive(p) => TypeKind::Primitive(*p),
        TypeKind::Void => TypeKind::Void,
    };
    Type { ident: ty.ident.clone(), defined_at: ty.defined_at.clone(), kind }
}


pub proof fn lemma_shift_zero(k: KindModel)
    ensures
        shift_kind(k, 0) == k,
{
    match k {
        KindModel::Pack { members } => {
            assert(shift_struct(members, 0) =~= members);
        },
        KindModel::Sequence { members } => {
            assert(shift_struct(members, 0) =~= members);
        },
        KindModel::Bitfld { members, .. } => {
            assert(shift_bits(members, 0) =~= members);
        },
        KindModel::Variant { members, .. } => {
            assert(shift_cases(members, 0) =~= members);
        },
        _ => {},
    }
}

/// A copy of a type.
fn copy_type(ty: &Type) -> (r: Type)
    ensures
        r@ == ty@,
{
    proof {
        lemma_shift_zero(ty.kind@);
    }
    shift_type(ty, 0)
}

/// The entry with overall position `j` among the definitions of `first` then `second`.
fn entry<'a>(first: &'a Vec<(TypeID, Type)>, second: &'a Vec<(TypeID, Type)>, j: usize) -> (r: &'a (
    TypeID,
    Type,
))
    requires
        j < first@.len() + second@.len(),
    ensures
        (r.0, r.1@) == (defs_model(first@) + defs_model(second@))[j as int],
{
    if j < first.len() {
        &first[j]
    } else {
        &second[j - first.len()]
    }
}

pub proof fn lemma_name_index_range(defs: Seq<(TypeID, TypeModel)>, name: Seq<char>, i: int)
    requires
        0 <= i <= defs.len(),
    ensures
        i <= super::types::name_index_from(defs, name, i) <= defs.len(),
        super::types::name_index_from(defs, name, i) < defs.len() ==> defs[super::types::name_index_from(
            defs,
            name,
            i,
        )].1.ident == name,
    decreases defs.len() - i,
{
    if i < defs.len() && defs[i].1.ident != name {
        lemma_name_index_range(defs, name, i + 1);
    }
}

pub proof fn lemma_name_index(defs: Seq<(TypeID, TypeModel)>, name: Seq<char>, i: int, k: int)
    requires
        0 <= i <= k < defs.len(),
        defs[k].1.ident == name,
    ensures
        i <= super::types::name_index_from(defs, name, i) <= k,
        defs[super::types::name_index_from(defs, name, i)].1.ident == name,
    decreases k - i,
{
    if defs[i].1.ident != name {
        lemma_name_index(defs, name, i + 1, k);
    }
}

fn is_builtin(ty: &Type) -> (b: bool)
    ensures
        b == is_builtin_kind(ty.kind@),
{
    match &ty.kind {
        TypeKind::Primitive(_) => true,
        TypeKind::Void => true,
        _ => false,
    }
}

/// How many definitions before position `j` (of `second` when `in_second`, else of
/// `first`) are named `name`, counting up to 2.
fn count_same(
    first: &Vec<(TypeID, Type)>,
    second: &Vec<(TypeID, Type)>,
    name: &crate::intermediate::TypeName,
    in_second: bool,
    j: usize,
) -> (c: usize)
    requires
        in_second ==> j < second@.len(),
        !in_second ==> j < first@.len(),
    ensures
        c <= 2,
        ({
            let all = defs_model(first@) + defs_model(second@);
            let jj = if in_second {
                first@.len() + j
            } else {
                j as int
            };
            &&& c < 2 ==> c == count_named(all, name@, jj)
            &&& c == 2 ==> count_named(all, name@, jj) >= 2
        }),
{
    let ghost all = defs_model(first@) + defs_model(second@);
    let n1 = first.len();
    let upto = if in_second {
        n1
    } else {
        j
    };
    let mut c: usize = 0;
    let mut i: usize = 0;
    while i < upto && c < 2
        invariant
            all == defs_model(first@) + defs_model(second@),
            n1 == first@.len(),
            upto <= n1,
            i <= upto,
            c <= 2,
            c < 2 ==> c == count_named(all, name@, i as int),
            c == 2 ==> count_named(all, name@, i as int) >= 2,
        decreases upto - i + (2 - c),
    {
        assert(all[i as int] == (first@[i as int].0, first@[i as int].1@));
        if first[i].1.ident.same(name) {
            c = c + 1;
        }
        i = i + 1;
    }
    proof {
        if c == 2 {
            lemma_count_monotone(all, name@, i as int, upto as int);
        }
    }
    if c < 2 {
        assert(i == upto);
    }
    if in_second {
        let mut k: usize = 0;
        while k < j && c < 2
            invariant
                all == defs_model(first@) + defs_model(second@),
                n1 == first@.len(),
                j < second@.len(),
                k <= j,
                c <= 2,
                c < 2 ==> c == count_named(all, name@, n1 + k),
                c == 2 ==> count_named(all, name@, n1 + k) >= 2,
            decreases j - k + (2 - c),
        {
            assert(all[n1 + k] == (second@[k as int].0, second@[k as int].1@));
            if second[k].1.ident.same(name) {
                c = c + 1;
            }
            k = k + 1;
        }
        proof {
            if c == 2 {
                lemma_count_monotone(all, name@, n1 + k, n1 + j);
            }
        }
    }
    c
}

/// The conflict error for a definition whose name a definition of `first` already has.
fn conflict_error(first: &Vec<(TypeID, Type)>, second: &Type, Ghost(name): Ghost<Seq<char>>) -> (r:
    CompileError)
    requires
        second.ident@ == name,
        super::types::def_index_by_name(defs_model(first@), name) < first@.len(),
    ensures
        r@ == (ErrorModel::ConflictingDefinitions {
            name,
            first: defs_model(first@)[super::types::def_index_by_name(defs_model(first@), name)].1.defined_at,
            second: second.defined_at@,
        }),
{
    let ghost defs = defs_model(first@);
    let n = first.len();
    let mut k: usize = 0;
    proof {
        lemma_name_index_range(defs, name, 0);
    }
    while !first[k].1.ident.same(&second.ident)
        invariant
            defs == defs_model(first@),
            n == first@.len(),
            k <= super::types::def_index_by_name(defs, name) < first@.len(),
            second.ident@ == name,
            super::types::def_index_by_name(defs, name) == super::types::name_index_from(
                defs,
                name,
                k as int,
            ),
        decreases first@.len() - k,
    {
        assert(defs[k as int].1.ident == first@[k as int].1.ident@);
        proof {
            lemma_name_index_range(defs, name, k as int + 1);
        }
        k = k + 1;
    }
    assert(defs[k as int].1.ident == first@[k as int].1.ident@);
    CompileError::ConflictingDefinitions {
        name: second.ident.clone(),
        first: first[k].1.defined_at.clone(),
        second: second.defined_at.clone(),
    }
}

impl World {
    /// Takes the definitions of `other` in: its identifiers move up by the largest
    /// identifier of this world's order, its order follows this one, and a definition of
    /// `other` replaces one of this world with the same identifier. Two definitions of a
    /// name that is not a builtin are a conflict.
    /// The first conflict is reported against this world's definition of the name, so it
    /// must have one: a first conflict between two definitions of `other` alone has no
    /// earlier definition to report.
    pub fn merge(self, other: World) -> (r: Result<World, CompileError>)
        requires
            conflict_from(self@.defs + other@.defs, 0) matches Some(k) ==> exists|i: int|
                0 <= i < self@.defs.len() && self@.defs[i].1.ident == (self@.defs + other@.defs)[k].1.ident,
            self@.sorted.len() > 0 ==> shiftable(other@, max_id(self@.sorted)),
        ensures
            merge_result(r, self@, other@),
    {
        let ghost w = self@;
        let ghost o = other@;
        let ghost all = w.defs + o.defs;
        let d1 = self.definitions();
        let d2 = other.definitions();
        let n1 = d1.len();
        let n2 = d2.len();
        let mut j: usize = 0;
        while j < n1
            invariant
                w == self@,
                o == other@,
                all == w.defs + o.defs,
                all == defs_model(d1@) + defs_model(d2@),
                w.defs == defs_model(d1@),
                o.defs == defs_model(d2@),
                n1 == d1@.len(),
                n2 == d2@.len(),
                j <= n1,
                conflict_from(all, 0) == conflict_from(all, j as int),
            decreases n1 - j,
        {
            let e = &d1[j];
            assert(all[j as int] == (e.0, e.1@));
            let c = count_same(d1, d2, &e.1.ident, false, j);
            if c == 1 && !is_builtin(&e.1) {
                proof {
                    lemma_count_named(all, all[j as int].1.ident, j as int);
                    let q = choose|q: int| 0 <= q < j && all[q].1.ident == all[j as int].1.ident;
                    assert(all[q] == w.defs[q]);
                    lemma_name_index(w.defs, all[j as int].1.ident, 0, q);
                    assert(earlier_same_name(all, j as int) == 1);
                    assert(conflict_from(all, j as int) == Some(j as int));
                }
                return Err(conflict_error(d1, &e.1, Ghost(all[j as int].1.ident)));
            }
            j = j + 1;
        }
        let mut j: usize = 0;
        while j < n2
            invariant
                w == self@,
                o == other@,
                all == w.defs + o.defs,
                all == defs_model(d1@) + defs_model(d2@),
                w.defs == defs_model(d1@),
                o.defs == defs_model(d2@),
                n1 == d1@.len(),
                n2 == d2@.len(),
                j <= n2,
                conflict_from(all, 0) matches Some(k) ==> exists|i: int|
                    0 <= i < w.defs.len() && w.defs[i].1.ident == all[k].1.ident,
                conflict_from(all, 0) == conflict_from(all, n1 + j),
            decreases n2 - j,
        {
            let e = &d2[j];
            assert(all[n1 + j] == (e.0, e.1@));
            let c = count_same(d1, d2, &e.1.ident, true, j);
            if c == 1 && !is_builtin(&e.1) {
                proof {
                    let jj = n1 + j;
                    assert(earlier_same_name(all, jj) == 1);
                    assert(conflict_from(all, jj) == Some(jj));
                    let q = choose|q: int| 0 <= q < w.defs.len() && w.defs[q].1.ident == all[jj].1.ident;
                    lemma_name_index(w.defs, all[jj].1.ident, 0, q);
                }
                return Err(conflict_error(d1, &e.1, Ghost(all[n1 + j].1.ident)));
            }
            j = j + 1;
        }
        assert(conflict_from(all, n1 + n2) is None);
        if self.sorted().len() == 0 {
            return Err(CompileError::EmptyWorld);
        }
        let sorted1 = self.sorted();
        let mut base = sorted1[0].0;
        let mut q: usize = 1;
        assert(sorted1@.take(1).drop_last() =~= Seq::<TypeID>::empty());
        while q < sorted1.len()
            invariant
                1 <= q <= sorted1@.len(),
                sorted1@ == w.sorted,
                base == max_id(sorted1@.take(q as int)),
            decreases sorted1.len() - q,
        {
            assert(sorted1@.take(q as int + 1).drop_last() =~= sorted1@.take(q as int));
            if sorted1[q].0 > base {
                base = sorted1[q].0;
            }
            q = q + 1;
        }
        assert(sorted1@.take(q as int) =~= sorted1@);
        let ghost moved_model = shift_defs(o.defs, base);
        let mut moved: Vec<(TypeID, Type)> = Vec::new();
        let mut i: usize = 0;
        while i < n2
            invariant
                n2 == d2@.len(),
                o.defs == defs_model(d2@),
                shiftable(o, base),
                moved_model == shift_defs(o.defs, base),
                i <= n2,
                defs_model(moved@) == moved_model.take(i as int),
            decreases n2 - i,
        {
            let (id, ty) = &d2[i];
            assert(o.defs[i as int] == (*id, ty@));
            assert forall|d: TypeID| #[trigger] refs(ty.kind@).contains(d) implies d.0 + base
                <= u32::MAX by {
                assert(refs(o.defs[i as int].1.kind).contains(d));
            }
            let ghost before = defs_model(moved@);
            let entry = (shift_exec(*id, base), shift_type(ty, base));
            moved.push(entry);
            assert(defs_model(moved@) =~= before.push((entry.0, entry.1@)));
            i = i + 1;
            assert(moved_model.take(i as int) =~= before.push((entry.0, entry.1@)));
        }
        assert(moved_model.take(i as int) =~= moved_model);
        let ghost moved_ids = moved_model.map_values(|d: (TypeID, TypeModel)| d.0);
        let mut defs: Vec<(TypeID, Type)> = Vec::new();
        let mut i: usize = 0;
        while i < n1
            invariant
                n1 == d1@.len(),
                w.defs == defs_model(d1@),
                defs_model(moved@) == moved_model,
                moved_ids == moved_model.map_values(|d: (TypeID, TypeModel)| d.0),
                i <= n1,
                defs_model(defs@) == not_replaced(w.defs.take(i as int), moved_ids),
            decreases n1 - i,
        {
            let (id, ty) = &d1[i];
            assert(w.defs[i as int] == (*id, ty@));
            let ghost before = defs_model(defs@);
            proof {
                w.defs.take(i as int).lemma_filter_push(
                    w.defs[i as int],
                    |d: (TypeID, TypeModel)| !moved_ids.contains(d.0),
                );
                assert(w.defs.take(i as int + 1) =~= w.defs.take(i as int).push(w.defs[i as int]));
            }
            let mut found = false;
            let mut k: usize = 0;
            while k < moved.len()
                invariant
                    defs_model(moved@) == moved_model,
                    moved_ids == moved_model.map_values(|d: (TypeID, TypeModel)| d.0),
                    k <= moved@.len(),
                    found <==> exists|t: int| 0 <= t < k && moved_ids[t] == *id,
                decreases moved.len() - k,
            {
                assert(moved_ids[k as int] == moved@[k as int].0);
                if moved[k].0 == *id {
                    found = true;
                }
                k = k + 1;
            }
            if !found {
                let entry = (*id, copy_type(ty));
                defs.push(entry);
                assert(defs_model(defs@) =~= before.push((entry.0, entry.1@)));
            }
            i = i + 1;
        }
        assert(w.defs.take(i as int) =~= w.defs);
        let mut i: usize = 0;
        let ghost kept = defs_model(defs@);
        let mut moved = moved;
        while i < moved.len()
            invariant
                defs_model(defs@) == kept + moved_model.take(i as int),
                defs_model(moved@) == moved_model,
                i <= moved@.len(),
            decreases moved@.len() - i,
        {
            let entry = (moved[i].0, copy_type(&moved[i].1));
            let ghost before = defs_model(defs@);
            defs.push(entry);
            assert(defs_model(defs@) =~= before.push((entry.0, entry.1@)));
            i = i + 1;
            assert(moved_model.take(i as int) =~= moved_model.take(i as int - 1).push(moved_model[i as int - 1]));
        }
        assert(moved_model.take(i as int) =~= moved_model);
        let mut sorted: Vec<TypeID> = Vec::new();
        let mut i: usize = 0;
        while i < sorted1.len()
            invariant
                sorted1@ == w.sorted,
                i <= sorted1@.len(),
                sorted@ == w.sorted.take(i as int),
            decreases sorted1.len() - i,
        {
            sorted.push(sorted1[i]);
            i = i + 1;
            assert(sorted@ =~= w.sorted.take(i as int));
        }
        assert(w.sorted.take(i as int) =~= w.sorted);
        let sorted2 = other.sorted();
        let mut i: usize = 0;
        while i < sorted2.len()
            invariant
                sorted2@ == o.sorted,
                shiftable(o, base),
                i <= sorted2@.len(),
                sorted@ == w.sorted + shift_ids(o.sorted, base).take(i as int),
            decreases sorted2.len() - i,
        {
            let ghost before = sorted@;
            sorted.push(shift_exec(sorted2[i], base));
            i = i + 1;
            assert(sorted@ =~= w.sorted + shift_ids(o.sorted, base).take(i as int));
        }
        assert(shift_ids(o.sorted, base).take(i as int) =~= shift_ids(o.sorted, base));
        let name = self.module_name().to_string();
        Ok(World::new(defs, sorted, name))
    }
}

pub proof fn lemma_count_monotone(all: Seq<(TypeID, TypeModel)>, name: Seq<char>, i: int, j: int)
    requires
        0 <= i <= j,
    ensures
        count_named(all, name, i) <= count_named(all, name, j),
    decreases j - i,
{
    if i < j {
        lemma_count_monotone(all, name, i, j - 1);
    }
}

} // verus!
