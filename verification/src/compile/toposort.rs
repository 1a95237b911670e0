//! Orders definitions so that every type comes after the types its layout depends on.
use vstd::prelude::*;
use vstd::seq_lib::*;
use vstd::set_lib::*;

use super::error::{CompileError, ErrorModel};
use super::types::{
    def_index, def_index_from, def_of, defs_model, distinct_ids, has_id, lemma_def_index,
    BitfldMemberModel, KindModel, StructMemberModel, Type, TypeID, TypeKind, TypeModel,
    VariantMemberModel,
};
use crate::intermediate::ast::type_names_model;
use crate::intermediate::TypeName;

verus! {

pub open spec fn member_tys(ms: Seq<StructMemberModel>) -> Seq<TypeID> {
    ms.map_values(|m: StructMemberModel| m.ty)
}

pub open spec fn bit_member_tys(ms: Seq<BitfldMemberModel>) -> Seq<TypeID> {
    ms.map_values(|m: BitfldMemberModel| m.underlying)
}

pub open spec fn case_tys(ms: Seq<VariantMemberModel>) -> Seq<TypeID> {
    ms.map_values(|m: VariantMemberModel| m.ty)
}

/// The identifiers on whose layout a type's layout depends. The elements of a dynamic
/// array live behind an indirection and do not count, so that recursion through them
/// (`Any -> AnyArray -> Any`) can be expressed.
pub open spec fn layout_deps(k: KindModel) -> Seq<TypeID> {
    match k {
        KindModel::Alias { other } => seq![other],
        KindModel::Pack { members } => member_tys(members),
        KindModel::Enum { underlying, .. } => seq![underlying],
        KindModel::Bitfld { underlying, members } => seq![underlying] + bit_member_tys(members),
        KindModel::Variant { discriminant, members } => seq![discriminant] + case_tys(members),
        KindModel::Sequence { members } => member_tys(members),
        KindModel::DynamicArray { size_type, .. } => seq![size_type],
        KindModel::FixedArray { value_type, .. } => seq![value_type],
        KindModel::Const { ty, .. } => seq![ty],
        KindModel::Primitive { .. } => seq![],
        KindModel::Void => seq![],
    }
}

/// Definition `i` may be placed after `placed`: it is not placed yet, and each of its
/// dependencies that is defined is.
pub open spec fn ready(defs: Seq<(TypeID, TypeModel)>, placed: Seq<TypeID>, i: int) -> bool {
    &&& 0 <= i < defs.len()
    &&& !placed.contains(defs[i].0)
    &&& forall|d: TypeID|
        #[trigger] layout_deps(defs[i].1.kind).contains(d) && has_id(defs, d) ==> placed.contains(
            d,
        )
}

/// `id` is the smallest identifier whose definition may be placed after `placed`.
pub open spec fn smallest_ready(defs: Seq<(TypeID, TypeModel)>, placed: Seq<TypeID>, id: TypeID) -> bool {
    &&& exists|i: int| ready(defs, placed, i) && defs[i].0 == id
    &&& forall|j: int| #[trigger] ready(defs, placed, j) ==> id.0 <= defs[j].0.0
}

/// `order` lists the definitions one by one, each time taking the smallest identifier
/// whose dependencies are all listed already.
pub open spec fn is_dependency_order(defs: Seq<(TypeID, TypeModel)>, order: Seq<TypeID>) -> bool {
    &&& order.len() == defs.len()
    &&& forall|k: int| 0 <= k < order.len() ==> smallest_ready(defs, order.take(k), #[trigger] order[k])
}

/// The dependency order is unique: whatever computes it, two orders of the same
/// definitions agree, so the order `toposort` gives is stable across runs.
pub proof fn lemma_dependency_order_unique(defs: Seq<(TypeID, TypeModel)>, a: Seq<TypeID>, b: Seq<TypeID>)
    requires
        is_dependency_order(defs, a),
        is_dependency_order(defs, b),
    ensures
        a == b,
{
    assert forall|k: int| 0 <= k < a.len() implies a[k] == b[k] by {
        lemma_orders_agree_upto(defs, a, b, k + 1);
        assert(a.take(k + 1)[k] == a[k]);
        assert(b.take(k + 1)[k] == b[k]);
    }
    assert(a =~= b);
}

/// Two dependency orders of the same definitions agree on their first `k` entries.
proof fn lemma_orders_agree_upto(defs: Seq<(TypeID, TypeModel)>, a: Seq<TypeID>, b: Seq<TypeID>, k: int)
    requires
        is_dependency_order(defs, a),
        is_dependency_order(defs, b),
        0 <= k <= a.len(),
    ensures
        a.take(k) == b.take(k),
    decreases k,
{
    if k == 0 {
        assert(a.take(0) =~= b.take(0));
    } else {
        lemma_orders_agree_upto(defs, a, b, k - 1);
        let p = a.take(k - 1);
        assert(smallest_ready(defs, a.take(k - 1), a[k - 1]));
        assert(smallest_ready(defs, b.take(k - 1), b[k - 1]));
        let i = choose|i: int| ready(defs, p, i) && defs[i].0 == a[k - 1];
        let j = choose|j: int| ready(defs, p, j) && defs[j].0 == b[k - 1];
        assert(a[k - 1].0 <= defs[j].0.0);
        assert(b[k - 1].0 <= defs[i].0.0);
        assert(a[k - 1] == b[k - 1]);
        assert(a.take(k) =~= a.take(k - 1).push(a[k - 1]));
        assert(b.take(k) =~= b.take(k - 1).push(b[k - 1]));
    }
}

/// `c` walks around a cycle of definitions: each one's layout depends on the next, and the
/// walk ends where it started.
pub open spec fn is_cycle(defs: Seq<(TypeID, TypeModel)>, c: Seq<TypeID>) -> bool {
    &&& c.len() >= 2
    &&& c[0] == c.last()
    &&& forall|i: int| 0 <= i < c.len() ==> has_id(defs, #[trigger] c[i])
    &&& forall|i: int|
        0 <= i < c.len() - 1 ==> layout_deps(def_of(defs, #[trigger] c[i]).kind).contains(c[i + 1])
}

pub open spec fn has_cycle(defs: Seq<(TypeID, TypeModel)>) -> bool {
    exists|c: Seq<TypeID>| is_cycle(defs, c)
}

/// The names of the definitions along a walk.
pub open spec fn names_along(defs: Seq<(TypeID, TypeModel)>, c: Seq<TypeID>) -> Seq<Seq<char>> {
    c.map_values(|id: TypeID| def_of(defs, id).ident)
}

pub open spec fn ids_of(defs: Seq<(TypeID, TypeModel)>) -> Seq<TypeID> {
    defs.map_values(|d: (TypeID, TypeModel)| d.0)
}

// ---------------------------------------------------------------------------
// Lemmas
// ---------------------------------------------------------------------------
/// A sequence without repetitions, all of whose items occur in `big`, is no longer than it.
pub proof fn lemma_pigeonhole<A>(small: Seq<A>, big: Seq<A>)
    requires
        small.no_duplicates(),
        forall|i: int| 0 <= i < small.len() ==> big.contains(#[trigger] small[i]),
    ensures
        small.len() <= big.len(),
{
    broadcast use vstd::set::group_set_axioms, seq_to_set_is_finite;

    small.unique_seq_to_set();
    big.lemma_cardinality_of_set();
    assert forall|x: A| small.to_set().contains(x) implies big.to_set().contains(x) by {
        let i = choose|i: int| 0 <= i < small.len() && small[i] == x;
        assert(big.contains(small[i]));
    }
    lemma_len_subset(small.to_set(), big.to_set());
}

/// In a list of definitions with distinct identifiers, the definition with the
/// identifier of entry `i` is entry `i`.
pub proof fn lemma_distinct_def_index(defs: Seq<(TypeID, TypeModel)>, i: int)
    requires
        distinct_ids(defs),
        0 <= i < defs.len(),
    ensures
        def_index(defs, defs[i].0) == i,
        has_id(defs, defs[i].0),
        def_of(defs, defs[i].0) == defs[i].1,
{
    lemma_def_index(defs, defs[i].0);
}

pub proof fn lemma_ids_distinct(defs: Seq<(TypeID, TypeModel)>)
    requires
        distinct_ids(defs),
    ensures
        ids_of(defs).no_duplicates(),
        ids_of(defs).len() == defs.len(),
{
    assert forall|i: int, j: int|
        0 <= i < ids_of(defs).len() && 0 <= j < ids_of(defs).len() && i != j implies ids_of(defs)[i]
        != ids_of(defs)[j] by {
        if i < j {
        } else {
        }
    }
}

/// A dependency order lists every defined identifier.
pub proof fn lemma_order_complete(defs: Seq<(TypeID, TypeModel)>, order: Seq<TypeID>, id: TypeID)
    requires
        distinct_ids(defs),
        is_dependency_order(defs, order),
        has_id(defs, id),
    ensures
        order.contains(id),
{
    broadcast use vstd::set::group_set_axioms, seq_to_set_is_finite;

    let ids = ids_of(defs);
    lemma_ids_distinct(defs);
    assert(order.no_duplicates()) by {
        assert forall|a: int, b: int| 0 <= a < b < order.len() implies order[a] != order[b] by {
            assert(smallest_ready(defs, order.take(b), order[b]));
            let i = choose|i: int| ready(defs, order.take(b), i) && defs[i].0 == order[b];
            assert(order.take(b)[a] == order[a]);
        }
    }
    assert forall|k: int| 0 <= k < order.len() implies ids.contains(#[trigger] order[k]) by {
        assert(smallest_ready(defs, order.take(k), order[k]));
        let i = choose|i: int| ready(defs, order.take(k), i) && defs[i].0 == order[k];
        assert(ids[i] == order[k]);
    }
    order.unique_seq_to_set();
    ids.unique_seq_to_set();
    assert(order.to_set().subset_of(ids.to_set()));
    lemma_subset_equality(order.to_set(), ids.to_set());
    lemma_def_index(defs, id);
    assert(ids[def_index(defs, id)] == id);
    assert(ids.to_set().contains(id));
}

/// An identifier listed at position `k` of a dependency order has all its defined
/// dependencies listed before `k`.
pub proof fn lemma_order_deps_before(
    defs: Seq<(TypeID, TypeModel)>,
    order: Seq<TypeID>,
    k: int,
    d: TypeID,
)
    requires
        distinct_ids(defs),
        is_dependency_order(defs, order),
        0 <= k < order.len(),
        layout_deps(def_of(defs, order[k]).kind).contains(d),
        has_id(defs, d),
    ensures
        order.take(k).contains(d),
{
    assert(smallest_ready(defs, order.take(k), order[k]));
    let i = choose|i: int| ready(defs, order.take(k), i) && defs[i].0 == order[k];
    lemma_distinct_def_index(defs, i);
    assert(layout_deps(defs[i].1.kind).contains(d));
}

/// Along a cycle, the position in a dependency order strictly decreases: each entry after
/// the first is listed before the first.
pub proof fn lemma_walk_positions(
    defs: Seq<(TypeID, TypeModel)>,
    order: Seq<TypeID>,
    c: Seq<TypeID>,
    j: int,
)
    requires
        distinct_ids(defs),
        is_dependency_order(defs, order),
        is_cycle(defs, c),
        1 <= j < c.len(),
    ensures
        order.contains(c[j]),
        order.index_of(c[j]) < order.index_of(c[0]),
    decreases j,
{
    lemma_order_no_dup(defs, order);
    let prev = c[j - 1];
    assert(has_id(defs, c[j]));
    assert(layout_deps(def_of(defs, c[j - 1]).kind).contains(c[j]));
    if j == 1 {
        lemma_order_complete(defs, order, c[0]);
    } else {
        lemma_walk_positions(defs, order, c, j - 1);
    }
    let p = order.index_of(prev);
    assert(order[p] == prev);
    lemma_order_deps_before(defs, order, p, c[j]);
    let q = order.take(p).index_of(c[j]);
    assert(order.take(p)[q] == c[j]);
    assert(order[q] == c[j]);
    let r = order.index_of(c[j]);
    assert(order[r] == c[j]);
    assert(r == q);
}

/// A world that has a dependency order has no dependency cycle.
pub proof fn lemma_order_acyclic(defs: Seq<(TypeID, TypeModel)>, order: Seq<TypeID>)
    requires
        distinct_ids(defs),
        is_dependency_order(defs, order),
    ensures
        !has_cycle(defs),
{
    if has_cycle(defs) {
        let c = choose|c: Seq<TypeID>| is_cycle(defs, c);
        lemma_walk_positions(defs, order, c, c.len() - 1);
        assert(c[c.len() - 1] == c[0]);
    }
}

pub proof fn lemma_order_no_dup(defs: Seq<(TypeID, TypeModel)>, order: Seq<TypeID>)
    requires
        is_dependency_order(defs, order),
    ensures
        order.no_duplicates(),
{
    assert forall|a: int, b: int| 0 <= a < b < order.len() implies order[a] != order[b] by {
        assert(smallest_ready(defs, order.take(b), order[b]));
        let i = choose|i: int| ready(defs, order.take(b), i) && defs[i].0 == order[b];
        assert(order.take(b)[a] == order[a]);
    }
}


// ---------------------------------------------------------------------------
// Executable ordering
// ---------------------------------------------------------------------------
/// All layout-affecting dependencies of a type, in declaration order.
pub fn layout_dependencies(ty: &Type) -> (r: Vec<TypeID>)
    ensures
        r@ == layout_deps(ty.kind@),
{
    let mut deps: Vec<TypeID> = Vec::new();
    match &ty.kind {
        TypeKind::Alias(a) => {
            deps.push(a.other);
        },
        TypeKind::Pack(p) => {
            let mut i: usize = 0;
            while i < p.members.len()
                invariant
                    i <= p.members@.len(),
                    deps@ == member_tys(ty.kind@->Pack_members).take(i as int),
                    ty.kind@->Pack_members == super::types::struct_members_model(p.members@),
                decreases p.members.len() - i,
            {
                deps.push(p.members[i].ty);
                i = i + 1;
                assert(deps@ =~= member_tys(ty.kind@->Pack_members).take(i as int));
            }
            assert(deps@ =~= member_tys(ty.kind@->Pack_members));
        },
        TypeKind::Enum(e) => {
            deps.push(e.underlying);
        },
        TypeKind::Bitfld(b) => {
            deps.push(b.underlying);
            let mut i: usize = 0;
            while i < b.members.len()
                invariant
                    i <= b.members@.len(),
                    deps@ == seq![b.underlying] + bit_member_tys(ty.kind@->Bitfld_members).take(
                        i as int,
                    ),
                    ty.kind@->Bitfld_members == super::types::bitfld_members_model(b.members@),
                decreases b.members.len() - i,
            {
                deps.push(b.members[i].underlying);
                i = i + 1;
                assert(deps@ =~= seq![b.underlying] + bit_member_tys(
                    ty.kind@->Bitfld_members,
                ).take(i as int));
            }
            assert(bit_member_tys(ty.kind@->Bitfld_members).take(i as int) =~= bit_member_tys(
                ty.kind@->Bitfld_members,
            ));
        },
        TypeKind::Variant(v) => {
            deps.push(v.discriminant);
            let mut i: usize = 0;
            while i < v.members.len()
                invariant
                    i <= v.members@.len(),
                    deps@ == seq![v.discriminant] + case_tys(ty.kind@->Variant_members).take(
                        i as int,
                    ),
                    ty.kind@->Variant_members == super::types::variant_members_model(v.members@),
                decreases v.members.len() - i,
            {
                deps.push(v.members[i].ty);
                i = i + 1;
                assert(deps@ =~= seq![v.discriminant] + case_tys(ty.kind@->Variant_members).take(
                    i as int,
                ));
            }
            assert(case_tys(ty.kind@->Variant_members).take(i as int) =~= case_tys(
                ty.kind@->Variant_members,
            ));
        },
        TypeKind::Sequence(sq) => {
            let mut i: usize = 0;
            while i < sq.members.len()
                invariant
                    i <= sq.members@.len(),
                    deps@ == member_tys(ty.kind@->Sequence_members).take(i as int),
                    ty.kind@->Sequence_members == super::types::struct_members_model(
                        sq.members@,
                    ),
                decreases sq.members.len() - i,
            {
                deps.push(sq.members[i].ty);
                i = i + 1;
                assert(deps@ =~= member_tys(ty.kind@->Sequence_members).take(i as int));
            }
            assert(deps@ =~= member_tys(ty.kind@->Sequence_members));
        },
        TypeKind::DynamicArray(d) => {
            deps.push(d.size_type);
        },
        TypeKind::FixedArray(f) => {
            deps.push(f.value_type);
        },
        TypeKind::Const(c) => {
            deps.push(c.ty);
        },
        TypeKind::Primitive(_) => {},
        TypeKind::Void => {},
    }
    assert(deps@ =~= layout_deps(ty.kind@));
    deps
}

/// Position of the definition with identifier `id`.
pub fn index_of(defs: &Vec<(TypeID, Type)>, id: TypeID) -> (r: Option<usize>)
    ensures
        match r {
            Some(j) => j == def_index(defs_model(defs@), id) && has_id(defs_model(defs@), id),
            None => !has_id(defs_model(defs@), id),
        },
{
    let ghost d = defs_model(defs@);
    let n = defs.len();
    let mut i: usize = 0;
    while i < n
        invariant
            n == defs@.len(),
            d == defs_model(defs@),
            i <= n,
            def_index(d, id) == def_index_from(d, id, i as int),
        decreases n - i,
    {
        assert(d[i as int].0 == defs@[i as int].0);
        if defs[i].0 == id {
            return Some(i);
        }
        i = i + 1;
    }
    None
}

/// Whether definition `i` may be placed, given the flags of the placed definitions.
fn is_ready(defs: &Vec<(TypeID, Type)>, placed: &Vec<bool>, Ghost(order): Ghost<Seq<TypeID>>, i: usize) -> (b: bool)
    requires
        distinct_ids(defs_model(defs@)),
        placed@.len() == defs@.len(),
        i < defs@.len(),
        forall|j: int| 0 <= j < defs@.len() ==> placed@[j] == order.contains(#[trigger] defs@[j].0),
    ensures
        b == ready(defs_model(defs@), order, i as int),
{
    let ghost d = defs_model(defs@);
    assert(d[i as int].0 == defs@[i as int].0);
    assert(d[i as int].1 == defs@[i as int].1@);
    if placed[i] {
        return false;
    }
    let deps = layout_dependencies(&defs[i].1);
    let mut k: usize = 0;
    while k < deps.len()
        invariant
            deps@ == layout_deps(d[i as int].1.kind),
            d == defs_model(defs@),
            distinct_ids(d),
            placed@.len() == defs@.len(),
            forall|j: int| 0 <= j < defs@.len() ==> placed@[j] == order.contains(#[trigger] defs@[j].0),
            k <= deps@.len(),
            forall|m: int| 0 <= m < k ==> has_id(d, #[trigger] deps@[m]) ==> order.contains(deps@[m]),
        decreases deps.len() - k,
    {
        match index_of(defs, deps[k]) {
            Some(j) => {
                proof {
                    lemma_def_index(d, deps@[k as int]);
                }
                assert(defs@[j as int].0 == d[j as int].0);
                if !placed[j] {
                    assert(layout_deps(d[i as int].1.kind).contains(deps@[k as int]));
                    return false;
                }
            },
            None => {},
        }
        k = k + 1;
    }
    assert forall|x: TypeID|
        #[trigger] layout_deps(d[i as int].1.kind).contains(x) && has_id(d, x) implies order.contains(
        x,
    ) by {
        let m = choose|m: int| 0 <= m < deps@.len() && deps@[m] == x;
        assert(has_id(d, deps@[m]));
    }
    true
}


pub open spec fn flags_match(defs: Seq<(TypeID, Type)>, placed: Seq<bool>, order: Seq<TypeID>) -> bool {
    &&& placed.len() == defs.len()
    &&& forall|j: int| 0 <= j < defs.len() ==> placed[j] == order.contains(#[trigger] defs[j].0)
}

pub open spec fn stuck(defs: Seq<(TypeID, TypeModel)>, order: Seq<TypeID>) -> bool {
    forall|j: int| 0 <= j < defs.len() ==> !#[trigger] ready(defs, order, j)
}

/// Walks from an unplaced definition along unplaced dependencies until the walk closes.
fn find_cycle(defs: &Vec<(TypeID, Type)>, placed: &Vec<bool>, Ghost(order): Ghost<Seq<TypeID>>) -> (c:
    Vec<TypeID>)
    requires
        distinct_ids(defs_model(defs@)),
        flags_match(defs@, placed@, order),
        stuck(defs_model(defs@), order),
        exists|j: int| 0 <= j < defs@.len() && !placed@[j],
    ensures
        is_cycle(defs_model(defs@), c@),
{
    let ghost d = defs_model(defs@);
    let n = defs.len();
    let mut s: usize = 0;
    while s < n && placed[s]
        invariant
            s <= n,
            n == defs@.len(),
            placed@.len() == n,
            forall|j: int| 0 <= j < s ==> placed@[j],
            exists|j: int| 0 <= j < defs@.len() && !placed@[j],
        decreases n - s,
    {
        s = s + 1;
    }
    let mut path: Vec<usize> = Vec::new();
    path.push(s);
    let ghost all = Seq::new(n as nat, |i: int| i as usize);
    loop
        invariant
            n == defs@.len(),
            d == defs_model(defs@),
            distinct_ids(d),
            flags_match(defs@, placed@, order),
            stuck(d, order),
            all == Seq::new(n as nat, |i: int| i as usize),
            1 <= path@.len() <= n,
            path@.no_duplicates(),
            forall|m: int| 0 <= m < path@.len() ==> #[trigger] path@[m] < n && !placed@[path@[m] as int],
            forall|m: int|
                0 <= m < path@.len() - 1 ==> layout_deps(d[#[trigger] path@[m] as int].1.kind).contains(
                    d[path@[m + 1] as int].0,
                ),
        decreases n - path@.len(),
    {
        let cur = path[path.len() - 1];
        assert(d[cur as int].0 == defs@[cur as int].0 && d[cur as int].1 == defs@[cur as int].1@);
        let deps = layout_dependencies(&defs[cur].1);
        let mut next: Option<usize> = None;
        let mut k: usize = 0;
        while k < deps.len()
            invariant
                deps@ == layout_deps(d[cur as int].1.kind),
                d == defs_model(defs@),
                n == defs@.len(),
                distinct_ids(d),
                flags_match(defs@, placed@, order),
                k <= deps@.len(),
                next matches Some(j) ==> j < n && !placed@[j as int] && layout_deps(
                    d[cur as int].1.kind,
                ).contains(d[j as int].0),
                next is None ==> forall|m: int|
                    0 <= m < k ==> has_id(d, #[trigger] deps@[m]) ==> order.contains(deps@[m]),
            ensures
                next matches Some(j) ==> j < n && !placed@[j as int] && layout_deps(
                    d[cur as int].1.kind,
                ).contains(d[j as int].0),
                next is None ==> forall|m: int|
                    0 <= m < deps@.len() ==> has_id(d, #[trigger] deps@[m]) ==> order.contains(
                        deps@[m],
                    ),
            decreases deps.len() - k,
        {
            match index_of(defs, deps[k]) {
                Some(j) => {
                    proof {
                        lemma_def_index(d, deps@[k as int]);
                    }
                    assert(defs@[j as int].0 == d[j as int].0);
                    if !placed[j] {
                        assert(layout_deps(d[cur as int].1.kind).contains(deps@[k as int]));
                        next = Some(j);
                        break;
                    }
                },
                None => {},
            }
            k = k + 1;
        }
        let j = match next {
            Some(j) => j,
            None => {
                proof {
                    assert forall|x: TypeID|
                        #[trigger] layout_deps(d[cur as int].1.kind).contains(x) && has_id(
                            d,
                            x,
                        ) implies order.contains(x) by {
                        let m = choose|m: int| 0 <= m < deps@.len() && deps@[m] == x;
                        assert(has_id(d, deps@[m]));
                    }
                    assert(!order.contains(d[cur as int].0));
                    assert(ready(d, order, cur as int));
                    assert(false);
                }
                return Vec::new();
            },
        };
        let mut p: usize = 0;
        while p < path.len() && path[p] != j
            invariant
                p <= path@.len(),
                forall|m: int| 0 <= m < p ==> path@[m] != j,
            decreases path.len() - p,
        {
            p = p + 1;
        }
        if p < path.len() {
            let mut c: Vec<TypeID> = Vec::new();
            let mut m: usize = p;
            while m < path.len()
                invariant
                    p <= m <= path@.len(),
                    p < path@.len(),
                    n == defs@.len(),
                    d == defs_model(defs@),
                    forall|q: int| 0 <= q < path@.len() ==> #[trigger] path@[q] < n,
                    c@.len() == m - p,
                    forall|t: int| 0 <= t < c@.len() ==> #[trigger] c@[t] == d[path@[p + t] as int].0,
                decreases path.len() - m,
            {
                assert(d[path@[m as int] as int].0 == defs@[path@[m as int] as int].0);
                c.push(defs[path[m]].0);
                m = m + 1;
            }
            assert(d[j as int].0 == defs@[j as int].0);
            c.push(defs[j].0);
            proof {
                let cs = c@;
                assert(cs.len() == path@.len() - p + 1);
                assert forall|t: int| 0 <= t < cs.len() implies has_id(d, #[trigger] cs[t]) by {
                    if t < cs.len() - 1 {
                        lemma_distinct_def_index(d, path@[p + t] as int);
                    } else {
                        lemma_distinct_def_index(d, j as int);
                    }
                }
                assert forall|t: int| 0 <= t < cs.len() - 1 implies layout_deps(
                    def_of(d, #[trigger] cs[t]).kind,
                ).contains(cs[t + 1]) by {
                    lemma_distinct_def_index(d, path@[p + t] as int);
                    if t < cs.len() - 2 {
                        assert(layout_deps(d[path@[p + t] as int].1.kind).contains(
                            d[path@[p + t + 1] as int].0,
                        ));
                    }
                }
                assert(cs[0] == d[path@[p as int] as int].0);
            }
            return c;
        }
        proof {
            assert forall|q: int| 0 <= q < path@.push(j).len() implies all.contains(
                #[trigger] path@.push(j)[q],
            ) by {
                assert(all[path@.push(j)[q] as int] == path@.push(j)[q]);
            }
            lemma_pigeonhole(path@.push(j), all);
        }
        let ghost before = path@;
        path.push(j);
        assert(path@ == before.push(j));
    }
}

/// Produces the dependency order of the definitions, or the names along a dependency cycle.
pub fn toposort(defs: &Vec<(TypeID, Type)>) -> (r: Result<Vec<TypeID>, CompileError>)
    requires
        distinct_ids(defs_model(defs@)),
    ensures
        (r matches Ok(order) ==> is_dependency_order(defs_model(defs@), order@)),
        (r is Ok) <==> !has_cycle(defs_model(defs@)),
        (r matches Err(e) ==> exists|c: Seq<TypeID>|
            is_cycle(defs_model(defs@), c) && e@ == (ErrorModel::CyclicDefinitions {
                cycle: names_along(defs_model(defs@), c),
            })),
{
    let ghost d = defs_model(defs@);
    let n = defs.len();
    let mut placed: Vec<bool> = Vec::new();
    while placed.len() < n
        invariant
            placed@.len() <= n,
            forall|j: int| 0 <= j < placed@.len() ==> !#[trigger] placed@[j],
        decreases n - placed@.len(),
    {
        placed.push(false);
    }
    let mut order: Vec<TypeID> = Vec::new();
    proof {
        lemma_ids_distinct(d);
    }
    while order.len() < n
        invariant
            n == defs@.len(),
            d == defs_model(defs@),
            distinct_ids(d),
            ids_of(d).no_duplicates(),
            ids_of(d).len() == n,
            flags_match(defs@, placed@, order@),
            order@.len() <= n,
            forall|k: int|
                0 <= k < order@.len() ==> smallest_ready(d, order@.take(k), #[trigger] order@[k]),
        decreases n - order@.len(),
    {
        let mut best: Option<usize> = None;
        let mut i: usize = 0;
        while i < n
            invariant
                n == defs@.len(),
                d == defs_model(defs@),
                distinct_ids(d),
                flags_match(defs@, placed@, order@),
                i <= n,
                best matches Some(b) ==> ready(d, order@, b as int) && forall|j: int|
                    0 <= j < i && #[trigger] ready(d, order@, j) ==> d[b as int].0.0 <= d[j].0.0,
                best is None ==> forall|j: int| 0 <= j < i ==> !#[trigger] ready(d, order@, j),
            decreases n - i,
        {
            if is_ready(defs, &placed, Ghost(order@), i) {
                assert(d[i as int].0 == defs@[i as int].0);
                match best {
                    None => {
                        best = Some(i);
                    },
                    Some(b) => {
                        assert(d[b as int].0 == defs@[b as int].0);
                        if defs[i].0.0 < defs[b].0.0 {
                            best = Some(i);
                        }
                    },
                }
            }
            i = i + 1;
        }
        match best {
            None => {
                proof {
                    if forall|j: int| 0 <= j < n ==> placed@[j] {
                        assert forall|q: int| 0 <= q < ids_of(d).len() implies order@.contains(
                            #[trigger] ids_of(d)[q],
                        ) by {
                            assert(placed@[q]);
                            assert(defs@[q].0 == ids_of(d)[q]);
                        }
                        lemma_pigeonhole(ids_of(d), order@);
                        assert(false);
                    }
                }
                let cycle = find_cycle(defs, &placed, Ghost(order@));
                let mut names: Vec<TypeName> = Vec::new();
                let mut k: usize = 0;
                while k < cycle.len()
                    invariant
                        d == defs_model(defs@),
                        distinct_ids(d),
                        is_cycle(d, cycle@),
                        k <= cycle@.len(),
                        type_names_model(names@) == names_along(d, cycle@).take(k as int),
                    decreases cycle.len() - k,
                {
                    assert(has_id(d, cycle@[k as int]));
                    let j = match index_of(defs, cycle[k]) {
                        Some(j) => j,
                        None => {
                            assert(false);
                            0
                        },
                    };
                    proof {
                        lemma_def_index(d, cycle@[k as int]);
                    }
                    assert(d[j as int].1 == defs@[j as int].1@);
                    let ghost before = type_names_model(names@);
                    let name = defs[j].1.ident.clone();
                    names.push(name);
                    assert(type_names_model(names@) =~= before.push(name@));
                    assert(name@ == def_of(d, cycle@[k as int]).ident);
                    k = k + 1;
                    assert(type_names_model(names@) =~= names_along(d, cycle@).take(k as int));
                }
                assert(names_along(d, cycle@).take(k as int) =~= names_along(d, cycle@));
                return Err(CompileError::CyclicDefinitions { cycle: names });
            },
            Some(b) => {
                assert(d[b as int].0 == defs@[b as int].0);
                let id = defs[b].0;
                let ghost old_order = order@;
                order.push(id);
                placed.set(b, true);
                proof {
                    assert(order@.take(old_order.len() as int) =~= old_order);
                    assert forall|k: int| 0 <= k < old_order.len() implies order@.take(k)
                        == old_order.take(k) by {
                        assert(order@.take(k) =~= old_order.take(k));
                    }
                    assert forall|j: int| 0 <= j < defs@.len() implies placed@[j] == order@.contains(
                        #[trigger] defs@[j].0,
                    ) by {
                        if j != b {
                            assert(d[j].0 == defs@[j].0);
                            assert(defs@[j].0 != id);
                            if order@.contains(defs@[j].0) {
                                let q = choose|q: int| 0 <= q < order@.len() && order@[q] == defs@[j].0;
                                assert(q < old_order.len());
                                assert(old_order.contains(defs@[j].0));
                            }
                        } else {
                            assert(order@[old_order.len() as int] == id);
                        }
                    }
                    assert(smallest_ready(d, old_order, id));
                }
            },
        }
    }
    proof {
        lemma_order_acyclic(d, order@);
    }
    Ok(order)
}

} // verus!
