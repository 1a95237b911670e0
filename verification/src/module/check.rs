//! The rules a finished module must satisfy: packs and fixed arrays hold plain data,
//! enum and variant values fit their underlying integer, bitfield ranges fit their
//! container, and dynamic arrays have an integer size or a positive count.
use vstd::prelude::*;
use vstd::set_lib::*;

use super::{
    first_from, int_bounds_spec, is_integer_spec, bit_width_spec, lemma_first_from, lookup_spec,
    name_span_spec, type_index, defines, ArrayKind, BuildErrorModel, KindModel, ModuleBuildError,
    PartialModule, TableModel, TypeID, TypeKind, TypeModel, Type, BitRange, Primitive,
};
use crate::tokens::Span;

verus! {

/// The identifiers that have a definition.
pub open spec fn type_ids(m: TableModel) -> Set<TypeID> {
    m.types.map_values(|e: (TypeID, TypeModel)| e.0).to_set()
}

pub proof fn lemma_pod_step(m: TableModel, tid: TypeID, seen: Set<TypeID>)
    requires
        lookup_spec(m, tid) is Ok,
        !seen.contains(tid),
    ensures
        type_ids(m).difference(seen.insert(tid)).len() < type_ids(m).difference(seen).len(),
{
    lemma_first_from(m.types, defines(tid), 0);
    let j = type_index(m.types, tid).unwrap();
    let ids = m.types.map_values(|e: (TypeID, TypeModel)| e.0);
    assert(ids[j] == tid);
    assert(type_ids(m).contains(tid));
    vstd::seq_lib::seq_to_set_is_finite(ids);
    type_ids(m).lemma_set_insert_diff_decreases(seen, tid);
}

/// Whether `t` consists of plain data only, following the definitions it refers to;
/// a reference back to a type on the path `seen` counts as not plain.
pub open spec fn is_pod_spec(m: TableModel, tid: TypeID, seen: Set<TypeID>) -> Result<bool, BuildErrorModel>
    decreases type_ids(m).difference(seen).len(), 0int, 0int,
{
    if seen.contains(tid) {
        Ok(false)
    } else {
        match lookup_spec(m, tid) {
            Err(e) => Err(e),
            Ok(t) => {
                proof {
                    lemma_pod_step(m, tid, seen);
                }
                match t.kind {
                    KindModel::Primitive(_) => Ok(true),
                    KindModel::Enum { .. } => Ok(true),
                    KindModel::Bitfld { .. } => Ok(true),
                    KindModel::FixedArray(ArrayKind::Dynamic { .. }) => Ok(false),
                    KindModel::FixedArray(ArrayKind::Fixed { value_type, .. }) => is_pod_spec(
                        m,
                        value_type,
                        seen.insert(tid),
                    ),
                    KindModel::Pack(members) => pod_members(m, members, 0, seen.insert(tid)),
                    KindModel::DynamicArray(_) => Ok(false),
                    KindModel::Sequence(_) => Ok(false),
                    KindModel::Variant { .. } => Ok(false),
                    KindModel::Alias(inner) => Ok(
                        match inner.kind {
                            KindModel::Primitive(_) | KindModel::Enum { .. } | KindModel::Bitfld {
                                ..
                            } | KindModel::FixedArray(_) | KindModel::Pack(_) => true,
                            _ => false,
                        },
                    ),
                }
            },
        }
    }
}

/// Whether the members of a pack from `i` on are plain data.
pub open spec fn pod_members(
    m: TableModel,
    ms: Seq<(Seq<char>, TypeID)>,
    i: int,
    seen: Set<TypeID>,
) -> Result<bool, BuildErrorModel>
    decreases type_ids(m).difference(seen).len(), 1int, ms.len() - i,
{
    if i < 0 || i >= ms.len() {
        Ok(true)
    } else {
        match is_pod_spec(m, ms[i].1, seen) {
            Err(e) => Err(e),
            Ok(false) => Ok(false),
            Ok(true) => pod_members(m, ms, i + 1, seen),
        }
    }
}


fn contains_id(v: &Vec<TypeID>, t: TypeID) -> (b: bool)
    ensures
        b == v@.to_set().contains(t),
{
    let mut i: usize = 0;
    while i < v.len()
        invariant
            i <= v@.len(),
            forall|k: int| 0 <= k < i ==> v@[k] != t,
        decreases v.len() - i,
    {
        if v[i] == t {
            assert(v@.contains(t));
            return true;
        }
        i = i + 1;
    }
    assert(!v@.contains(t));
    false
}

pub proof fn lemma_push_to_set(v: Seq<TypeID>, t: TypeID)
    ensures
        v.push(t).to_set() == v.to_set().insert(t),
{
    assert forall|x: TypeID| v.push(t).to_set().contains(x) == v.to_set().insert(t).contains(x) by {
        if v.push(t).contains(x) {
            let k = choose|k: int| 0 <= k < v.push(t).len() && v.push(t)[k] == x;
            if k < v.len() {
                assert(v[k] == x);
            }
        }
        if v.contains(x) {
            let k = choose|k: int| 0 <= k < v.len() && v[k] == x;
            assert(v.push(t)[k] == x);
        }
        if x == t {
            assert(v.push(t)[v.len() as int] == x);
        }
    }
    assert(v.push(t).to_set() =~= v.to_set().insert(t));
}

impl PartialModule {
    /// Whether `tid` names plain data; `seen` holds the types on the path here, and is
    /// the same again on return.
    fn is_pod(&self, tid: TypeID, seen: &mut Vec<TypeID>) -> (r: Result<bool, ModuleBuildError>)
        ensures
            final(seen)@ == old(seen)@,
            match (r, is_pod_spec(self.table(), tid, old(seen)@.to_set())) {
                (Ok(b), Ok(c)) => b == c,
                (Err(e), Err(f)) => e@ == f,
                _ => false,
            },
        decreases type_ids(self.table()).difference(old(seen)@.to_set()).len(),
    {
        let ghost m = self.table();
        let ghost s0 = seen@;
        if contains_id(seen, tid) {
            return Ok(false);
        }
        let t = self.lookup(tid)?;
        proof {
            lemma_pod_step(m, tid, s0.to_set());
            lemma_push_to_set(s0, tid);
        }
        let res = match &t.kind {
            TypeKind::Primitive(_) => true,
            TypeKind::Enum(_) => true,
            TypeKind::Bitfld(_) => true,
            TypeKind::FixedArray(ArrayKind::Dynamic { .. }) => false,
            TypeKind::FixedArray(ArrayKind::Fixed { value_type, .. }) => {
                seen.push(tid);
                let r = self.is_pod(*value_type, seen);
                seen.pop();
                assert(seen@ =~= s0);
                r?
            },
            TypeKind::Pack(p) => {
                let ghost ms = super::named_ids(p.members@);
                let ghost s1 = s0.push(tid).to_set();
                assert(t@.kind == KindModel::Pack(ms));
                assert(is_pod_spec(m, tid, s0.to_set()) == pod_members(m, ms, 0, s1));
                seen.push(tid);
                let mut i: usize = 0;
                let mut all = true;
                while i < p.members.len()
                    invariant_except_break
                        all,
                        pod_members(m, ms, 0, s1) == pod_members(m, ms, i as int, s1),
                    invariant
                        s0 == old(seen)@,
                        seen@ == s0.push(tid),
                        s1 == s0.push(tid).to_set(),
                        s1 == s0.to_set().insert(tid),
                        ms == super::named_ids(p.members@),
                        m == self.table(),
                        i <= p.members@.len(),
                        type_ids(m).difference(s1).len() < type_ids(m).difference(s0.to_set()).len(),
                        is_pod_spec(m, tid, s0.to_set()) == pod_members(m, ms, 0, s1),
                    ensures
                        seen@ == s0.push(tid),
                        all ==> pod_members(m, ms, 0, s1) == Ok::<bool, BuildErrorModel>(true),
                        !all ==> pod_members(m, ms, 0, s1) == Ok::<bool, BuildErrorModel>(false),
                    decreases p.members.len() - i,
                {
                    let r = self.is_pod(p.members[i].1, seen);
                    assert(ms[i as int].1 == p.members@[i as int].1);
                    match r {
                        Err(e) => {
                            seen.pop();
                            assert(seen@ =~= s0);
                            return Err(e);
                        },
                        Ok(false) => {
                            all = false;
                            break;
                        },
                        Ok(true) => {},
                    }
                    i = i + 1;
                }
                seen.pop();
                assert(seen@ =~= s0);
                all
            },
            TypeKind::DynamicArray(_) | TypeKind::Sequence(_) | TypeKind::Variant(_) => false,
            TypeKind::Alias(inner) => {
                assert(t@.kind == KindModel::Alias(Box::new(inner@)));
                match inner.kind {
                TypeKind::Primitive(_) | TypeKind::Enum(_) | TypeKind::Bitfld(_) => true,
                TypeKind::FixedArray(_) => true,
                TypeKind::Pack(_) => true,
                TypeKind::DynamicArray(_) | TypeKind::Sequence(_) | TypeKind::Variant(_) => false,
                TypeKind::Alias(_) => false,
            }},
        };
        Ok(res)
    }
}


pub open spec fn out_of_range(min: i128, max: i128) -> spec_fn((Seq<char>, i64)) -> bool {
    |e: (Seq<char>, i64)| (e.1 as i128) < min || (e.1 as i128) > max
}

pub open spec fn ends_past(width: u32) -> spec_fn((Seq<char>, TypeID, BitRange)) -> bool {
    |e: (Seq<char>, TypeID, BitRange)| e.2.end >= width
}

pub open spec fn above(max: i128) -> spec_fn((u64, TypeID)) -> bool {
    |e: (u64, TypeID)| (e.0 as i128) > max
}

/// The first member of a pack, from `i` on, that is not plain data.
pub open spec fn pack_problem(
    m: TableModel,
    ms: Seq<(Seq<char>, TypeID)>,
    i: int,
    at: Span,
) -> Option<BuildErrorModel>
    decreases ms.len() - i,
{
    if i < 0 || i >= ms.len() {
        None
    } else {
        match is_pod_spec(m, ms[i].1, Set::empty()) {
            Err(e) => Some(e),
            Ok(false) => Some(BuildErrorModel::NonPODInPack(ms[i].0, at)),
            Ok(true) => pack_problem(m, ms, i + 1, at),
        }
    }
}

pub open spec fn enum_problem(
    m: TableModel,
    tid: TypeID,
    ty: Primitive,
    members: Seq<(Seq<char>, i64)>,
    default: Option<(Seq<char>, i64)>,
    at: Span,
) -> Option<BuildErrorModel> {
    if !is_integer_spec(ty) {
        match name_span_spec(m, tid) {
            Err(e) => Some(e),
            Ok((n, s)) => Some(BuildErrorModel::NonIntEnum(n, s, ty)),
        }
    } else {
        let (min, max) = int_bounds_spec(ty).unwrap();
        let bad = |e: (Seq<char>, i64)|
            BuildErrorModel::EnumValueOutOfRange { name: e.0, at, value: e.1 as i128, min, max };
        match first_from(members, out_of_range(min, max), 0) {
            Some(k) => Some(bad(members[k])),
            None => match default {
                Some(d) => if out_of_range(min, max)(d) {
                    Some(bad(d))
                } else {
                    None
                },
                None => None,
            },
        }
    }
}

pub open spec fn nonint_bitfld(m: TableModel, tid: TypeID, ty: TypeID) -> Option<BuildErrorModel> {
    match name_span_spec(m, tid) {
        Err(e) => Some(e),
        Ok((en, es)) => match name_span_spec(m, ty) {
            Err(e) => Some(e),
            Ok((un, _)) => Some(BuildErrorModel::NonIntBitfld(en, es, un)),
        },
    }
}

pub open spec fn bitfld_problem(
    m: TableModel,
    tid: TypeID,
    ty: TypeID,
    members: Seq<(Seq<char>, TypeID, BitRange)>,
    at: Span,
) -> Option<BuildErrorModel> {
    match lookup_spec(m, ty) {
        Err(e) => Some(e),
        Ok(u) => match u.kind {
            KindModel::Primitive(p) => if is_integer_spec(p) {
                let width = bit_width_spec(p).unwrap();
                match first_from(members, ends_past(width), 0) {
                    Some(k) => Some(
                        BuildErrorModel::BitfldVOutOfRange {
                            name: members[k].0,
                            at,
                            end: members[k].2.end,
                            width,
                        },
                    ),
                    None => None,
                }
            } else {
                nonint_bitfld(m, tid, ty)
            },
            _ => nonint_bitfld(m, tid, ty),
        },
    }
}

pub open spec fn variant_problem(
    m: TableModel,
    tid: TypeID,
    ty: Primitive,
    members: Seq<(u64, TypeID)>,
    default: Option<(u64, TypeID)>,
    at: Span,
) -> Option<BuildErrorModel> {
    if !is_integer_spec(ty) {
        match name_span_spec(m, tid) {
            Err(e) => Some(e),
            Ok((n, s)) => Some(BuildErrorModel::NonIntVariant(n, s, ty)),
        }
    } else {
        let max = int_bounds_spec(ty).unwrap().1;
        match first_from(members, above(max), 0) {
            Some(k) => Some(
                BuildErrorModel::VariantValueOutOfRange { at, value: members[k].0 as i128, max },
            ),
            None => match default {
                Some(d) => if above(max)(d) {
                    Some(BuildErrorModel::VariantValueOutOfRange { at, value: d.0 as i128, max })
                } else {
                    None
                },
                None => None,
            },
        }
    }
}

/// The rule that the definition `t` of `tid` breaks, if any.
pub open spec fn type_problem(m: TableModel, tid: TypeID, t: TypeModel) -> Option<BuildErrorModel> {
    let at = t.defined_at;
    match t.kind {
        KindModel::Pack(ms) => pack_problem(m, ms, 0, at),
        KindModel::Enum { ty, members, default } => enum_problem(m, tid, ty, members, default, at),
        KindModel::Bitfld { ty, members } => bitfld_problem(m, tid, ty, members, at),
        KindModel::Variant { ty, members, default } => variant_problem(
            m,
            tid,
            ty,
            members,
            default,
            at,
        ),
        KindModel::FixedArray(ArrayKind::Fixed { value_type, .. }) => match is_pod_spec(
            m,
            value_type,
            Set::empty(),
        ) {
            Err(e) => Some(e),
            Ok(false) => Some(BuildErrorModel::FixedArrayRequiresPOD(at)),
            Ok(true) => None,
        },
        KindModel::DynamicArray(ArrayKind::Dynamic { size_type, .. }) => match lookup_spec(
            m,
            size_type,
        ) {
            Err(e) => Some(e),
            Ok(st) => match st.kind {
                KindModel::Primitive(p) => if is_integer_spec(p) {
                    None
                } else {
                    Some(BuildErrorModel::ArraySizeTypeNotInteger { n_m: "{N * M}"@, at })
                },
                _ => Some(BuildErrorModel::ArraySizeTypeNotInteger { n_m: "{N * M}"@, at }),
            },
        },
        KindModel::DynamicArray(ArrayKind::Fixed { count, .. }) => if count == 0 {
            Some(BuildErrorModel::ArrayCountNotPositive { i_m: "{I * M}"@, at })
        } else {
            None
        },
        _ => None,
    }
}

/// The first rule broken by a definition, taking the definitions from `i` on in order.
pub open spec fn validate_from(m: TableModel, i: int) -> Option<BuildErrorModel>
    decreases m.types.len() - i,
{
    if i < 0 || i >= m.types.len() {
        None
    } else {
        match type_problem(m, m.types[i].0, m.types[i].1) {
            Some(e) => Some(e),
            None => validate_from(m, i + 1),
        }
    }
}

pub open spec fn validate_spec(m: TableModel) -> Option<BuildErrorModel> {
    validate_from(m, 0)
}

/// Validation finds nothing exactly when every definition keeps every rule; otherwise it
/// reports the problem of the first definition that breaks one.
pub proof fn lemma_validate_all_rules(m: TableModel)
    ensures
        validate_spec(m) is None <==> forall|i: int|
            0 <= i < m.types.len() ==> type_problem(m, m.types[i].0, #[trigger] m.types[i].1) is None,
        validate_spec(m) is Some ==> exists|i: int|
            0 <= i < m.types.len() && validate_spec(m) == type_problem(m, m.types[i].0, m.types[i].1)
                && forall|j: int| 0 <= j < i ==> type_problem(m, m.types[j].0, #[trigger] m.types[j].1) is None,
{
    lemma_validate_from(m, 0);
}

proof fn lemma_validate_from(m: TableModel, k: int)
    requires
        0 <= k <= m.types.len(),
    ensures
        validate_from(m, k) is None <==> forall|i: int|
            k <= i < m.types.len() ==> type_problem(m, m.types[i].0, #[trigger] m.types[i].1) is None,
        validate_from(m, k) is Some ==> exists|i: int|
            k <= i < m.types.len() && validate_from(m, k) == type_problem(m, m.types[i].0, m.types[i].1)
                && forall|j: int| k <= j < i ==> type_problem(m, m.types[j].0, #[trigger] m.types[j].1) is None,
    decreases m.types.len() - k,
{
    if k < m.types.len() {
        lemma_validate_from(m, k + 1);
        if type_problem(m, m.types[k].0, m.types[k].1) is None {
            if validate_from(m, k + 1) is Some {
                let i = choose|i: int|
                    k + 1 <= i < m.types.len() && validate_from(m, k + 1) == type_problem(
                        m,
                        m.types[i].0,
                        m.types[i].1,
                    ) && forall|j: int|
                        k + 1 <= j < i ==> type_problem(m, m.types[j].0, #[trigger] m.types[j].1) is None;
                assert forall|j: int| k <= j < i implies type_problem(
                    m,
                    m.types[j].0,
                    #[trigger] m.types[j].1,
                ) is None by {}
            }
        }
    }
}

impl PartialModule {
    fn pod(&self, tid: TypeID) -> (r: Result<bool, ModuleBuildError>)
        ensures
            match (r, is_pod_spec(self.table(), tid, Set::empty())) {
                (Ok(b), Ok(c)) => b == c,
                (Err(e), Err(f)) => e@ == f,
                _ => false,
            },
    {
        let mut seen: Vec<TypeID> = Vec::new();
        assert(seen@.to_set() =~= Set::<TypeID>::empty());
        self.is_pod(tid, &mut seen)
    }

    fn nonint_bitfld_error(&self, tid: TypeID, ty: TypeID) -> (e: ModuleBuildError)
        ensures
            nonint_bitfld(self.table(), tid, ty) == Some(e@),
    {
        let enum_type = match self.name_and_span_for_tid(tid) {
            Ok(x) => x,
            Err(e) => return e,
        };
        let underlying = match self.name_and_span_for_tid(ty) {
            Ok(x) => x,
            Err(e) => return e,
        };
        ModuleBuildError::NonIntBitfld(enum_type.0.clone(), enum_type.1, underlying.0.clone())
    }

    /// Checks one definition against the rules.
    fn check_type(&self, tid: TypeID, t: &Type) -> (r: Result<(), ModuleBuildError>)
        ensures
            match (r, type_problem(self.table(), tid, t@)) {
                (Ok(_), None) => true,
                (Err(e), Some(f)) => e@ == f,
                _ => false,
            },
    {
        let ghost m = self.table();
        let at = t.defined_at;
        match &t.kind {
            TypeKind::Pack(p) => {
                let ghost ms = super::named_ids(p.members@);
                assert(type_problem(m, tid, t@) == pack_problem(m, ms, 0, at));
                let mut i: usize = 0;
                while i < p.members.len()
                    invariant
                        type_problem(m, tid, t@) == pack_problem(m, ms, 0, at),
                        m == self.table(),
                        ms == super::named_ids(p.members@),
                        i <= p.members@.len(),
                        pack_problem(m, ms, 0, at) == pack_problem(m, ms, i as int, at),
                    decreases p.members.len() - i,
                {
                    assert(ms[i as int] == (p.members@[i as int].0@, p.members@[i as int].1));
                    let ok = self.pod(p.members[i].1)?;
                    if !ok {
                        return Err(ModuleBuildError::NonPODInPack(p.members[i].0.clone(), at));
                    }
                    i = i + 1;
                }
                Ok(())
            },
            TypeKind::Enum(e) => {
                if !e.ty.is_integer() {
                    let check = self.name_and_span_for_tid(tid)?;
                    return Err(ModuleBuildError::NonIntEnum(check.0.clone(), check.1, e.ty));
                }
                let (min, max) = e.ty.int_bounds().unwrap();
                let ghost ms = super::named_values(e.members@);
                let ghost p = out_of_range(min, max);
                let ghost dm = match &e.default {
                    Some(d) => Some((d.0@, d.1)),
                    None => None,
                };
                proof {
                    lemma_first_from(ms, p, 0);
                }
                assert(type_problem(m, tid, t@) == enum_problem(m, tid, e.ty, ms, dm, at));
                let mut i: usize = 0;
                while i < e.members.len()
                    invariant
                        m == self.table(),
                        type_problem(m, tid, t@) == enum_problem(m, tid, e.ty, ms, dm, at),
                        int_bounds_spec(e.ty) == Some((min, max)),
                        is_integer_spec(e.ty),
                        ms == super::named_values(e.members@),
                        p == out_of_range(min, max),
                        i <= e.members@.len(),
                        first_from(ms, p, 0) == first_from(ms, p, i as int),
                    decreases e.members.len() - i,
                {
                    assert(ms[i as int] == (e.members@[i as int].0@, e.members@[i as int].1));
                    let v = e.members[i].1 as i128;
                    if v < min || v > max {
                        assert(p(ms[i as int]));
                        return Err(
                            ModuleBuildError::EnumValueOutOfRange {
                                name: e.members[i].0.clone(),
                                at,
                                value: v,
                                min,
                                max,
                            },
                        );
                    }
                    assert(!p(ms[i as int]));
                    i = i + 1;
                }
                if let Some((name, val)) = &e.default {
                    let v = *val as i128;
                    if v < min || v > max {
                        return Err(
                            ModuleBuildError::EnumValueOutOfRange {
                                name: name.clone(),
                                at,
                                value: v,
                                min,
                                max,
                            },
                        );
                    }
                }
                Ok(())
            },
            TypeKind::Bitfld(b) => {
                let underlying = self.lookup(b.ty)?;
                let p = match underlying.kind {
                    TypeKind::Primitive(p) => p,
                    _ => return Err(self.nonint_bitfld_error(tid, b.ty)),
                };
                if !p.is_integer() {
                    return Err(self.nonint_bitfld_error(tid, b.ty));
                }
                let width = p.bit_width().unwrap();
                let ghost ms = super::named_ranges(b.members@);
                let ghost q = ends_past(width);
                proof {
                    lemma_first_from(ms, q, 0);
                }
                assert(type_problem(m, tid, t@) == bitfld_problem(m, tid, b.ty, ms, at));
                let mut i: usize = 0;
                while i < b.members.len()
                    invariant
                        m == self.table(),
                        type_problem(m, tid, t@) == bitfld_problem(m, tid, b.ty, ms, at),
                        lookup_spec(m, b.ty) == Ok::<TypeModel, BuildErrorModel>(underlying@),
                        underlying@.kind == KindModel::Primitive(p),
                        is_integer_spec(p),
                        bit_width_spec(p) == Some(width),
                        ms == super::named_ranges(b.members@),
                        q == ends_past(width),
                        i <= b.members@.len(),
                        first_from(ms, q, 0) == first_from(ms, q, i as int),
                    decreases b.members.len() - i,
                {
                    assert(ms[i as int] == (b.members@[i as int].0@, b.members@[i as int].1, b.members@[i as int].2));
                    let end = b.members[i].2.end;
                    if end >= width {
                        assert(q(ms[i as int]));
                        return Err(
                            ModuleBuildError::BitfldVOutOfRange {
                                name: b.members[i].0.clone(),
                                at,
                                end,
                                width,
                            },
                        );
                    }
                    assert(!q(ms[i as int]));
                    i = i + 1;
                }
                Ok(())
            },
            TypeKind::Variant(v) => {
                if !v.ty.is_integer() {
                    let check = self.name_and_span_for_tid(tid)?;
                    return Err(ModuleBuildError::NonIntVariant(check.0.clone(), check.1, v.ty));
                }
                let (_min, max) = v.ty.int_bounds().unwrap();
                let ghost q = above(max);
                proof {
                    lemma_first_from(v.members@, q, 0);
                }
                assert(type_problem(m, tid, t@) == variant_problem(m, tid, v.ty, v.members@, v.default, at));
                let mut i: usize = 0;
                while i < v.members.len()
                    invariant
                        m == self.table(),
                        type_problem(m, tid, t@) == variant_problem(m, tid, v.ty, v.members@, v.default, at),
                        is_integer_spec(v.ty),
                        int_bounds_spec(v.ty).unwrap().1 == max,
                        q == above(max),
                        i <= v.members@.len(),
                        first_from(v.members@, q, 0) == first_from(v.members@, q, i as int),
                    decreases v.members.len() - i,
                {
                    let val = v.members[i].0 as i128;
                    if val > max {
                        assert(q(v.members@[i as int]));
                        return Err(ModuleBuildError::VariantValueOutOfRange { at, value: val, max });
                    }
                    assert(!q(v.members@[i as int]));
                    i = i + 1;
                }
                if let Some((val, _vt)) = &v.default {
                    let val = *val as i128;
                    if val > max {
                        return Err(ModuleBuildError::VariantValueOutOfRange { at, value: val, max });
                    }
                }
                Ok(())
            },
            TypeKind::FixedArray(ArrayKind::Fixed { value_type, .. }) => {
                if !self.pod(*value_type)? {
                    return Err(ModuleBuildError::FixedArrayRequiresPOD(at));
                }
                Ok(())
            },
            TypeKind::DynamicArray(ArrayKind::Dynamic { size_type, .. }) => {
                let st = self.lookup(*size_type)?;
                let p = match st.kind {
                    TypeKind::Primitive(p) => p,
                    _ => return Err(ModuleBuildError::ArraySizeTypeNotInteger { n_m: "{N * M}", at }),
                };
                if !p.is_integer() {
                    return Err(ModuleBuildError::ArraySizeTypeNotInteger { n_m: "{N * M}", at });
                }
                Ok(())
            },
            TypeKind::DynamicArray(ArrayKind::Fixed { count, .. }) => {
                if *count == 0 {
                    return Err(ModuleBuildError::ArrayCountNotPositive { i_m: "{I * M}", at });
                }
                Ok(())
            },
            _ => Ok(()),
        }
    }

    /// Checks every definition against the rules, in the order they were made, and
    /// reports the first rule broken.
    pub fn validate(&self) -> (r: Result<(), ModuleBuildError>)
        ensures
            match (r, validate_spec(self.table())) {
                (Ok(_), None) => true,
                (Err(e), Some(f)) => e@ == f,
                _ => false,
            },
    {
        let ghost m = self.table();
        let mut i: usize = 0;
        while i < self.types.len()
            invariant
                m == self.table(),
                m.types.len() == self.types@.len(),
                i <= self.types@.len(),
                validate_from(m, 0) == validate_from(m, i as int),
            decreases self.types.len() - i,
        {
            let (tid, t) = (&self.types[i].0, &self.types[i].1);
            assert(m.types[i as int] == (self.types@[i as int].0, self.types@[i as int].1@));
            self.check_type(*tid, t)?;
            i = i + 1;
        }
        Ok(())
    }
}

} // verus!
