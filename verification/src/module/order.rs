//! Turning a checked module into its final form, with the definitions ordered so
//! that each comes after the ones it refers to.
use vstd::prelude::*;

use super::{
    first_from, lemma_first_from, names_model, type_index, types_model, defines, ArrayKind,
    KindModel, NameModel, PartialModule, TableModel, Type, TypeID, TypeKind, TypeModel,
};
use crate::tokens::Span;

verus! {

pub open spec fn member_ids(ms: Seq<(Seq<char>, TypeID)>) -> Seq<TypeID> {
    ms.map_values(|m: (Seq<char>, TypeID)| m.1)
}

/// The identifiers a definition refers to directly, in the order they are written; an
/// alias refers to what its target refers to.
pub open spec fn deps_of(t: TypeModel) -> Seq<TypeID>
    decreases t,
{
    match t.kind {
        KindModel::Primitive(_) => Seq::empty(),
        KindModel::Alias(inner) => deps_of(*inner),
        KindModel::Pack(ms) => member_ids(ms),
        KindModel::Enum { .. } => Seq::empty(),
        KindModel::Bitfld { ty, members } => seq![ty] + members.map_values(
            |m: (Seq<char>, TypeID, super::BitRange)| m.1,
        ),
        KindModel::Variant { members, default, .. } => members.map_values(|m: (u64, TypeID)| m.1)
            + match default {
            Some(d) => seq![d.1],
            None => Seq::empty(),
        },
        KindModel::Sequence(ms) => member_ids(ms),
        KindModel::DynamicArray(a) | KindModel::FixedArray(a) => match a {
            ArrayKind::Dynamic { size_type, value_type } => seq![size_type, value_type],
            ArrayKind::Fixed { value_type, .. } => seq![value_type],
        },
    }
}

/// The entry `e` can be placed after `placed`: it is not placed yet, and every other
/// defined identifier it refers to is.
pub open spec fn can_place(types: Seq<(TypeID, TypeModel)>, placed: Seq<TypeID>) -> spec_fn(
    (TypeID, TypeModel),
) -> bool {
    |e: (TypeID, TypeModel)|
        !placed.contains(e.0) && forall|k: int|
            0 <= k < deps_of(e.1).len() ==> {
                let d = #[trigger] deps_of(e.1)[k];
                d == e.0 || type_index(types, d) is None || placed.contains(d)
            }
}

/// The identifiers among the first `k` definitions that are not placed yet, in order.
pub open spec fn unplaced_upto(types: Seq<(TypeID, TypeModel)>, placed: Seq<TypeID>, k: int) -> Seq<
    TypeID,
>
    decreases k,
{
    if k <= 0 || k > types.len() {
        Seq::empty()
    } else {
        let id = types[k - 1].0;
        unplaced_upto(types, placed, k - 1) + if placed.contains(id) {
            Seq::empty()
        } else {
            seq![id]
        }
    }
}

/// The identifiers not placed yet, in definition order.
pub open spec fn unplaced(types: Seq<(TypeID, TypeModel)>, placed: Seq<TypeID>) -> Seq<TypeID> {
    unplaced_upto(types, placed, types.len() as int)
}

/// Places definitions one at a time, each time the first in definition order whose
/// references are placed; what can never be placed (because of a cycle) follows in
/// definition order.
pub open spec fn order_from(types: Seq<(TypeID, TypeModel)>, placed: Seq<TypeID>, fuel: nat) -> Seq<
    TypeID,
>
    decreases fuel,
{
    if fuel == 0 {
        placed + unplaced(types, placed)
    } else {
        match first_from(types, can_place(types, placed), 0) {
            Some(i) => order_from(types, placed.push(types[i].0), (fuel - 1) as nat),
            None => placed + unplaced(types, placed),
        }
    }
}

pub open spec fn type_order_spec(types: Seq<(TypeID, TypeModel)>) -> Seq<TypeID> {
    order_from(types, Seq::empty(), types.len())
}

// ---------------------------------------------------------------------------
// The order puts dependencies first
// ---------------------------------------------------------------------------
/// Entry `i` refers to the other defined identifier `d`.
pub open spec fn refers_to(types: Seq<(TypeID, TypeModel)>, i: int, d: TypeID) -> bool {
    deps_of(types[i].1).contains(d) && d != types[i].0 && type_index(types, d) is Some
}

/// `rank` puts each definition above every other defined definition it refers to; such a
/// ranking exists exactly when the references have no cycle.
pub open spec fn ranked_by(types: Seq<(TypeID, TypeModel)>, rank: spec_fn(TypeID) -> nat) -> bool {
    forall|i: int, d: TypeID| 0 <= i < types.len() && #[trigger] refers_to(types, i, d) ==> rank(d) < rank(types[i].0)
}

/// In `order`, each definition comes after the other defined definitions it refers to.
pub open spec fn deps_first(types: Seq<(TypeID, TypeModel)>, order: Seq<TypeID>) -> bool {
    forall|p: int, i: int, d: TypeID|
        0 <= p < order.len() && 0 <= i < types.len() && types[i].0 == order[p] && #[trigger] refers_to(
            types,
            i,
            d,
        ) ==> #[trigger] order.take(p).contains(d)
}

/// Without cycles among the references, the order lists every definition once, each
/// after the definitions it refers to.
pub proof fn lemma_order_puts_dependencies_first(types: Seq<(TypeID, TypeModel)>, rank: spec_fn(TypeID) -> nat)
    requires
        forall|i: int, j: int| 0 <= i < j < types.len() ==> (#[trigger] types[i]).0 != (#[trigger] types[j]).0,
        ranked_by(types, rank),
    ensures
        type_order_spec(types).len() == types.len(),
        forall|i: int| 0 <= i < types.len() ==> type_order_spec(types).contains(#[trigger] types[i].0),
        deps_first(types, type_order_spec(types)),
{
    lemma_unplaced_none(types, types.len() as int);
    lemma_order_from_ranked(types, rank, Seq::empty(), types.len());
}

/// With nothing placed, every entry is unplaced.
proof fn lemma_unplaced_none(types: Seq<(TypeID, TypeModel)>, k: int)
    requires
        0 <= k <= types.len(),
    ensures
        unplaced_upto(types, Seq::empty(), k).len() == k,
    decreases k,
{
    if k > 0 {
        lemma_unplaced_none(types, k - 1);
    }
}

/// Placing the identifier of entry `j` leaves one entry fewer unplaced among the first `k`
/// when `j < k`.
proof fn lemma_unplaced_push(types: Seq<(TypeID, TypeModel)>, placed: Seq<TypeID>, j: int, k: int)
    requires
        forall|a: int, b: int| 0 <= a < b < types.len() ==> (#[trigger] types[a]).0 != (#[trigger] types[b]).0,
        0 <= j < types.len(),
        !placed.contains(types[j].0),
        0 <= k <= types.len(),
    ensures
        unplaced_upto(types, placed.push(types[j].0), k).len() + (if j < k { 1int } else { 0int })
            == unplaced_upto(types, placed, k).len(),
    decreases k,
{
    if k > 0 {
        lemma_unplaced_push(types, placed, j, k - 1);
        let id = types[k - 1].0;
        if k - 1 == j {
            assert(placed.push(types[j].0).contains(id)) by {
                assert(placed.push(types[j].0)[placed.len() as int] == id);
            }
        } else {
            assert(placed.push(types[j].0).contains(id) == placed.contains(id)) by {
                if placed.push(types[j].0).contains(id) {
                    let q = choose|q: int| 0 <= q < placed.len() + 1 && placed.push(types[j].0)[q] == id;
                    if q < placed.len() {
                        assert(placed[q] == id);
                    }
                }
                if placed.contains(id) {
                    let q = choose|q: int| 0 <= q < placed.len() && placed[q] == id;
                    assert(placed.push(types[j].0)[q] == id);
                }
            }
        }
    }
}

/// Some entry among the first `k` is unplaced when the list of unplaced ones is not empty.
proof fn lemma_unplaced_witness(types: Seq<(TypeID, TypeModel)>, placed: Seq<TypeID>, k: int)
    requires
        0 <= k <= types.len(),
        unplaced_upto(types, placed, k).len() > 0,
    ensures
        exists|i: int| 0 <= i < k && !placed.contains(#[trigger] types[i].0),
    decreases k,
{
    if placed.contains(types[k - 1].0) {
        lemma_unplaced_witness(types, placed, k - 1);
    }
}

/// Every entry is placed when none is left unplaced among the first `k`.
proof fn lemma_unplaced_empty(types: Seq<(TypeID, TypeModel)>, placed: Seq<TypeID>, k: int)
    requires
        0 <= k <= types.len(),
        unplaced_upto(types, placed, k).len() == 0,
    ensures
        forall|i: int| 0 <= i < k ==> placed.contains(#[trigger] types[i].0),
    decreases k,
{
    if k > 0 {
        lemma_unplaced_empty(types, placed, k - 1);
    }
}

/// An unplaced entry of least rank among the unplaced ones.
proof fn lemma_least_unplaced(
    types: Seq<(TypeID, TypeModel)>,
    placed: Seq<TypeID>,
    rank: spec_fn(TypeID) -> nat,
    i: int,
) -> (m: int)
    requires
        0 <= i < types.len(),
        !placed.contains(types[i].0),
    ensures
        0 <= m < types.len(),
        !placed.contains(types[m].0),
        forall|j: int| 0 <= j < types.len() && !placed.contains(#[trigger] types[j].0) ==> rank(types[m].0) <= rank(types[j].0),
    decreases rank(types[i].0),
{
    if exists|j: int| 0 <= j < types.len() && !placed.contains(#[trigger] types[j].0) && rank(types[j].0) < rank(types[i].0) {
        let j = choose|j: int| 0 <= j < types.len() && !placed.contains(#[trigger] types[j].0) && rank(types[j].0) < rank(types[i].0);
        lemma_least_unplaced(types, placed, rank, j)
    } else {
        i
    }
}

/// From a prefix that lists distinct identifiers after their dependencies, the greedy
/// placement finishes the order the same way.
proof fn lemma_order_from_ranked(
    types: Seq<(TypeID, TypeModel)>,
    rank: spec_fn(TypeID) -> nat,
    placed: Seq<TypeID>,
    fuel: nat,
)
    requires
        forall|i: int, j: int| 0 <= i < j < types.len() ==> (#[trigger] types[i]).0 != (#[trigger] types[j]).0,
        ranked_by(types, rank),
        deps_first(types, placed),
        placed.len() + fuel == types.len(),
        unplaced(types, placed).len() == fuel,
    ensures
        order_from(types, placed, fuel).len() == types.len(),
        forall|i: int| 0 <= i < types.len() ==> order_from(types, placed, fuel).contains(#[trigger] types[i].0),
        deps_first(types, order_from(types, placed, fuel)),
    decreases fuel,
{
    let n = types.len() as int;
    if fuel == 0 {
        lemma_unplaced_empty(types, placed, n);
        assert(placed + unplaced(types, placed) =~= placed);
    } else {
        let p = can_place(types, placed);
        lemma_first_from(types, p, 0);
        lemma_unplaced_witness(types, placed, n);
        let w = choose|i: int| 0 <= i < n && !placed.contains(#[trigger] types[i].0);
        let m = lemma_least_unplaced(types, placed, rank, w);
        assert(p(types[m])) by {
            assert forall|k: int| 0 <= k < deps_of(types[m].1).len() implies {
                let d = #[trigger] deps_of(types[m].1)[k];
                d == types[m].0 || type_index(types, d) is None || placed.contains(d)
            } by {
                let d = deps_of(types[m].1)[k];
                if d != types[m].0 && type_index(types, d) is Some {
                    assert(refers_to(types, m, d));
                    lemma_first_from(types, defines(d), 0);
                    let q = type_index(types, d)->Some_0;
                    assert(types[q].0 == d);
                    if !placed.contains(d) {
                        assert(rank(types[m].0) <= rank(types[q].0));
                    }
                }
            }
        }
        let i = first_from(types, p, 0)->Some_0;
        let np = placed.push(types[i].0);
        lemma_unplaced_push(types, placed, i, n);
        assert forall|q: int, j: int, d: TypeID|
            0 <= q < np.len() && 0 <= j < types.len() && types[j].0 == np[q] && #[trigger] refers_to(types, j, d)
                implies #[trigger] np.take(q).contains(d) by {
            if q < placed.len() {
                assert(np.take(q) =~= placed.take(q));
                assert(placed[q] == np[q]);
            } else {
                assert(np.take(q) =~= placed);
                if i != j {
                    assert(types[i].0 != types[j].0);
                }
                let k = choose|k: int| 0 <= k < deps_of(types[j].1).len() && deps_of(types[j].1)[k] == d;
                assert(deps_of(types[i].1)[k] == d);
            }
        }
        lemma_order_from_ranked(types, rank, np, (fuel - 1) as nat);
    }
}

/// The name of each identifier, in the order the names were mentioned.
pub open spec fn inverse_names(names: Seq<NameModel>) -> Seq<(TypeID, Seq<char>)> {
    names.map_values(|e: NameModel| (e.1, e.0))
}

/// A module whose definitions are complete and checked.
#[derive(Debug)]
pub struct Module {
    pub name: String,
    pub type_map: Vec<(String, TypeID, Span)>,
    pub inv_type_map: Vec<(TypeID, String)>,
    pub types: Vec<(TypeID, Type)>,
    pub type_order: Vec<TypeID>,
}

impl Module {
    /// The definition of `t`.
    pub fn lookup(&self, t: TypeID) -> (r: Option<&Type>)
        ensures
            match type_index(types_model(self.types@), t) {
                Some(j) => (r matches Some(x) && x@ == types_model(self.types@)[j].1),
                None => r is None,
            },
    {
        let ghost xs = types_model(self.types@);
        let mut i: usize = 0;
        while i < self.types.len()
            invariant
                xs == types_model(self.types@),
                i <= self.types@.len(),
                first_from(xs, defines(t), 0) == first_from(xs, defines(t), i as int),
            decreases self.types.len() - i,
        {
            if self.types[i].0 == t {
                assert(defines(t)(xs[i as int]));
                return Some(&self.types[i].1);
            }
            assert(!defines(t)(xs[i as int]));
            i = i + 1;
        }
        None
    }
}

/// The identifiers `ty` refers to.
fn collect_deps(ty: &Type) -> (r: Vec<TypeID>)
    ensures
        r@ == deps_of(ty@),
    decreases ty,
{
    let mut deps: Vec<TypeID> = Vec::new();
    match &ty.kind {
        TypeKind::Primitive(_) => {},
        TypeKind::Alias(inner) => {
            return collect_deps(inner);
        },
        TypeKind::Pack(p) => {
            push_member_ids(&mut deps, &p.members);
        },
        TypeKind::Enum(_) => {},
        TypeKind::Bitfld(b) => {
            deps.push(b.ty);
            let mut i: usize = 0;
            while i < b.members.len()
                invariant
                    i <= b.members@.len(),
                    deps@ == seq![b.ty] + b.members@.take(i as int).map_values(
                        |m: (String, TypeID, super::BitRange)| m.1,
                    ),
                decreases b.members.len() - i,
            {
                deps.push(b.members[i].1);
                i = i + 1;
                assert(b.members@.take(i as int) =~= b.members@.take(i - 1).push(b.members@[i - 1]));
            }
            assert(b.members@.take(i as int) =~= b.members@);
            assert(super::named_ranges(b.members@).map_values(
                |m: (Seq<char>, TypeID, super::BitRange)| m.1,
            ) =~= b.members@.map_values(|m: (String, TypeID, super::BitRange)| m.1));
        },
        TypeKind::Variant(v) => {
            let mut i: usize = 0;
            while i < v.members.len()
                invariant
                    i <= v.members@.len(),
                    deps@ == v.members@.take(i as int).map_values(|m: (u64, TypeID)| m.1),
                decreases v.members.len() - i,
            {
                deps.push(v.members[i].1);
                i = i + 1;
                assert(v.members@.take(i as int) =~= v.members@.take(i - 1).push(v.members@[i - 1]));
            }
            assert(v.members@.take(i as int) =~= v.members@);
            if let Some((_, dt)) = &v.default {
                deps.push(*dt);
            }
            assert(deps@ =~= deps_of(ty@));
        },
        TypeKind::Sequence(s) => {
            push_member_ids(&mut deps, &s.members);
        },
        TypeKind::DynamicArray(a) | TypeKind::FixedArray(a) => match a {
            ArrayKind::Dynamic { size_type, value_type } => {
                deps.push(*size_type);
                deps.push(*value_type);
            },
            ArrayKind::Fixed { value_type, .. } => {
                deps.push(*value_type);
            },
        },
    }
    assert(deps@ =~= deps_of(ty@));
    deps
}

fn push_member_ids(deps: &mut Vec<TypeID>, ms: &Vec<(String, TypeID)>)
    requires
        old(deps)@.len() == 0,
    ensures
        final(deps)@ == member_ids(super::named_ids(ms@)),
{
    let mut i: usize = 0;
    while i < ms.len()
        invariant
            i <= ms@.len(),
            deps@ == member_ids(super::named_ids(ms@.take(i as int))),
        decreases ms.len() - i,
    {
        deps.push(ms[i].1);
        i = i + 1;
        assert(ms@.take(i as int) =~= ms@.take(i - 1).push(ms@[i - 1]));
        assert(member_ids(super::named_ids(ms@.take(i as int))) =~= member_ids(
            super::named_ids(ms@.take(i - 1)),
        ).push(ms@[i - 1].1));
    }
    assert(ms@.take(i as int) =~= ms@);
}


fn contains(v: &Vec<TypeID>, t: TypeID) -> (b: bool)
    ensures
        b == v@.contains(t),
{
    let mut i: usize = 0;
    while i < v.len()
        invariant
            i <= v@.len(),
            forall|k: int| 0 <= k < i ==> v@[k] != t,
        decreases v.len() - i,
    {
        if v[i] == t {
            assert(v@[i as int] == t);
            return true;
        }
        i = i + 1;
    }
    false
}

impl PartialModule {
    /// Whether definition `i`, whose references are `deps`, can be placed after `order`.
    fn placeable(&self, i: usize, deps: &Vec<TypeID>, order: &Vec<TypeID>) -> (b: bool)
        requires
            i < self.table().types.len(),
            deps@ == deps_of(self.table().types[i as int].1),
        ensures
            b == can_place(self.table().types, order@)(self.table().types[i as int]),
    {
        let ghost m = self.table();
        let id = self.types[i].0;
        assert(m.types[i as int].0 == id);
        if contains(order, id) {
            return false;
        }
        let mut k: usize = 0;
        while k < deps.len()
            invariant
                m == self.table(),
                i < m.types.len(),
                m.types[i as int].0 == id,
                deps@ == deps_of(m.types[i as int].1),
                k <= deps@.len(),
                forall|j: int|
                    0 <= j < k ==> {
                        let d = #[trigger] deps@[j];
                        d == id || type_index(m.types, d) is None || order@.contains(d)
                    },
            decreases deps.len() - k,
        {
            let d = deps[k];
            if !(d == id || self.find_type(d).is_none() || contains(order, d)) {
                return false;
            }
            k = k + 1;
        }
        true
    }

    /// The finished module: the same names and definitions, the inverse of the name
    /// table, and the definitions in dependency order (see `type_order_spec`).
    pub fn compile(self) -> (r: Module)
        ensures
            r.name@ == self.name_model(),
            names_model(r.type_map@) == self.table().names,
            types_model(r.types@) == self.table().types,
            r.type_order@ == type_order_spec(self.table().types),
            inverse_names(self.table().names) == r.inv_type_map@.map_values(
                |e: (TypeID, String)| (e.0, e.1@),
            ),
    {
        let ghost m = self.table();
        let n = self.types.len();
        let mut deps: Vec<Vec<TypeID>> = Vec::new();
        let mut i: usize = 0;
        while i < n
            invariant
                m == self.table(),
                n == m.types.len(),
                i <= n,
                deps@.len() == i,
                forall|j: int| 0 <= j < i ==> (#[trigger] deps@[j])@ == deps_of(m.types[j].1),
            decreases n - i,
        {
            assert(m.types[i as int] == (self.types@[i as int].0, self.types@[i as int].1@));
            deps.push(collect_deps(&self.types[i].1));
            i = i + 1;
        }
        let mut order: Vec<TypeID> = Vec::new();
        let mut fuel: usize = n;
        loop
            invariant
                m == self.table(),
                n == m.types.len(),
                deps@.len() == n,
                forall|j: int| 0 <= j < n ==> (#[trigger] deps@[j])@ == deps_of(m.types[j].1),
                type_order_spec(m.types) == order_from(m.types, order@, fuel as nat),
            ensures
                m == self.table(),
                n == m.types.len(),
                type_order_spec(m.types) == order@ + unplaced(m.types, order@),
            decreases fuel,
        {
            if fuel == 0 {
                break;
            }
            let ghost p = can_place(m.types, order@);
            let mut k: usize = 0;
            let mut found: Option<usize> = None;
            while k < n
                invariant_except_break
                    first_from(m.types, p, 0) == first_from(m.types, p, k as int),
                    found is None,
                invariant
                    m == self.table(),
                    n == m.types.len(),
                    deps@.len() == n,
                    forall|j: int| 0 <= j < n ==> (#[trigger] deps@[j])@ == deps_of(m.types[j].1),
                    p == can_place(m.types, order@),
                    k <= n,
                ensures
                    match found {
                        Some(j) => first_from(m.types, p, 0) == Some(j as int),
                        None => first_from(m.types, p, 0) is None,
                    },
                decreases n - k,
            {
                if self.placeable(k, &deps[k], &order) {
                    found = Some(k);
                    break;
                }
                k = k + 1;
            }
            proof {
                lemma_first_from(m.types, p, 0);
            }
            match found {
                Some(j) => {
                    assert(m.types[j as int].0 == self.types@[j as int].0);
                    order.push(self.types[j].0);
                    fuel = fuel - 1;
                },
                None => {
                    break;
                },
            }
        }
        let mut rest: Vec<TypeID> = Vec::new();
        let mut k: usize = 0;
        while k < n
            invariant
                m == self.table(),
                n == m.types.len(),
                k <= n,
                rest@ == unplaced_upto(m.types, order@, k as int),
            decreases n - k,
        {
            let id = self.types[k].0;
            assert(m.types[k as int].0 == id);
            if !contains(&order, id) {
                rest.push(id);
            }
            k = k + 1;
            assert(rest@ =~= unplaced_upto(m.types, order@, k as int));
        }
        let ghost placed = order@;
        order.append(&mut rest);
        assert(order@ =~= type_order_spec(m.types));
        let mut inv: Vec<(TypeID, String)> = Vec::new();
        let mut k: usize = 0;
        while k < self.type_map.len()
            invariant
                m == self.table(),
                k <= self.type_map@.len(),
                inv@.len() == k,
                m.names.len() == self.type_map@.len(),
                forall|j: int|
                    0 <= j < k ==> (#[trigger] inv@[j]).0 == m.names[j].1 && inv@[j].1@ == m.names[j].0,
            decreases self.type_map.len() - k,
        {
            let e = &self.type_map[k];
            assert(m.names[k as int] == (e.0@, e.1, e.2));
            inv.push((e.1, e.0.clone()));
            k = k + 1;
        }
        assert(inv@.map_values(|e: (TypeID, String)| (e.0, e.1@)) =~= inverse_names(m.names));
        Module {
            name: self.name,
            type_map: self.type_map,
            inv_type_map: inv,
            types: self.types,
            type_order: order,
        }
    }
}

} // verus!
