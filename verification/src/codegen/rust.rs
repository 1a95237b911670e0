//! The Rust backend: a `read` module with owned types and `read_*` functions, and a
//! `write` module with borrowed view types and `write_*` functions.
use vstd::prelude::*;

use super::{cat2, cat3, cat4, cat5, cat6, cat7, put, rust_ident, sanitize, CodeWriter};
use crate::compile::toposort::{
    bit_member_tys, case_tys, is_dependency_order, layout_deps, lemma_order_complete,
    lemma_order_deps_before, lemma_order_no_dup, member_tys,
};
use crate::compile::types::{
    def_of, has_id, lemma_def_index, BitWidth, Datatype, KindModel, Primitive, Signedness, Type,
    TypeID, TypeKind, World, WorldModel,
};
use crate::compile::verify::{closed, lemma_closed_ref, refs};

verus! {

/// Options that change the generated code.
#[derive(Debug, Default, Clone)]
pub struct GlobalOptions {
    /// A limit (in bytes) on the arrays that generated readers accept.
    pub guard_array_size: Option<u64>,
}

/// A world that code can be generated for: identifiers are distinct, every reference is
/// defined, and `sorted` lists the definitions so that each comes after those it depends
/// on. `compile` gives such worlds.
pub open spec fn world_ready(w: WorldModel) -> bool {
    closed(w.defs) && is_dependency_order(w.defs, w.sorted)
}

/// Every bitfield member's range runs forward and stays within 64 bits, as checked
/// worlds guarantee.
pub open spec fn ranges_ok(k: KindModel) -> bool {
    match k {
        KindModel::Bitfld { members, .. } => forall|j: int|
            0 <= j < members.len() ==> (#[trigger] members[j]).range.start <= members[j].range.end
                < 64,
        _ => true,
    }
}

pub open spec fn bits_ok(w: WorldModel) -> bool {
    forall|i: int| 0 <= i < w.defs.len() ==> ranges_ok(#[trigger] w.defs[i].1.kind)
}

/// The position of `id` in the dependency order.
pub open spec fn rank(w: WorldModel, id: TypeID) -> int {
    if w.sorted.contains(id) {
        w.sorted.index_of(id)
    } else {
        w.sorted.len() as int
    }
}

pub open spec fn kind_of(w: WorldModel, id: TypeID) -> KindModel {
    def_of(w.defs, id).kind
}

/// A definition's layout dependencies come before it in the dependency order.
pub proof fn lemma_dep_rank(w: WorldModel, id: TypeID, d: TypeID)
    requires
        world_ready(w),
        has_id(w.defs, id),
        layout_deps(kind_of(w, id)).contains(d),
    ensures
        has_id(w.defs, d),
        0 <= rank(w, d) < rank(w, id),
{
    let defs = w.defs;
    let order = w.sorted;
    assert(refs(kind_of(w, id)).contains(d)) by {
        if let KindModel::DynamicArray { size_type, value_type } = kind_of(w, id) {
            assert(layout_deps(kind_of(w, id)) == seq![size_type]);
            assert(d == size_type);
            assert(refs(kind_of(w, id))[0] == d);
        }
    }
    lemma_closed_ref(defs, id, d);
    lemma_order_no_dup(defs, order);
    lemma_order_complete(defs, order, id);
    lemma_order_complete(defs, order, d);
    let p = order.index_of(id);
    assert(order[p] == id);
    lemma_order_deps_before(defs, order, p, d);
    let q = order.take(p).index_of(d);
    assert(order.take(p)[q] == d);
    assert(order[q] == d);
    let r = order.index_of(d);
    assert(order[r] == d);
    assert(r == q);
}

/// Follows aliases to the first definition that is not one.
pub open spec fn resolve_alias_spec(w: WorldModel, id: TypeID) -> TypeID
    decreases rank(w, id),
    when world_ready(w) && has_id(w.defs, id)
{
    match kind_of(w, id) {
        KindModel::Alias { other } => {
            proof {
                assert(layout_deps(kind_of(w, id))[0] == other);
                lemma_dep_rank(w, id, other);
            }
            resolve_alias_spec(w, other)
        },
        _ => id,
    }
}

pub proof fn lemma_resolve_alias(w: WorldModel, id: TypeID)
    requires
        world_ready(w),
        has_id(w.defs, id),
    ensures
        has_id(w.defs, resolve_alias_spec(w, id)),
        rank(w, resolve_alias_spec(w, id)) <= rank(w, id),
        !(kind_of(w, resolve_alias_spec(w, id)) is Alias),
    decreases rank(w, id),
{
    if let KindModel::Alias { other } = kind_of(w, id) {
        assert(layout_deps(kind_of(w, id))[0] == other);
        lemma_dep_rank(w, id, other);
        lemma_resolve_alias(w, other);
    }
}

/// The primitive behind a type, following aliases, enums and constants.
pub open spec fn underlying_primitive_spec(w: WorldModel, id: TypeID) -> Option<Primitive>
    decreases rank(w, id),
    when world_ready(w) && has_id(w.defs, id)
{
    match kind_of(w, id) {
        KindModel::Primitive { primitive } => Some(primitive),
        KindModel::Alias { other } => {
            proof {
                assert(layout_deps(kind_of(w, id))[0] == other);
                lemma_dep_rank(w, id, other);
            }
            underlying_primitive_spec(w, other)
        },
        KindModel::Enum { underlying, .. } => {
            proof {
                assert(layout_deps(kind_of(w, id))[0] == underlying);
                lemma_dep_rank(w, id, underlying);
            }
            underlying_primitive_spec(w, underlying)
        },
        KindModel::Const { ty, .. } => {
            proof {
                assert(layout_deps(kind_of(w, id))[0] == ty);
                lemma_dep_rank(w, id, ty);
            }
            underlying_primitive_spec(w, ty)
        },
        _ => None,
    }
}

/// The primitive a type is, following aliases and constants (but not enums).
pub open spec fn direct_primitive_spec(w: WorldModel, id: TypeID) -> Option<Primitive>
    decreases rank(w, id),
    when world_ready(w) && has_id(w.defs, id)
{
    match kind_of(w, id) {
        KindModel::Primitive { primitive } => Some(primitive),
        KindModel::Alias { other } => {
            proof {
                assert(layout_deps(kind_of(w, id))[0] == other);
                lemma_dep_rank(w, id, other);
            }
            direct_primitive_spec(w, other)
        },
        KindModel::Const { ty, .. } => {
            proof {
                assert(layout_deps(kind_of(w, id))[0] == ty);
                lemma_dep_rank(w, id, ty);
            }
            direct_primitive_spec(w, ty)
        },
        _ => None,
    }
}

/// The members whose view types decide whether a view type borrows.
pub open spec fn lifetime_deps(k: KindModel) -> Seq<TypeID> {
    match k {
        KindModel::Bitfld { members, .. } => bit_member_tys(members),
        KindModel::Sequence { members } => member_tys(members),
        KindModel::Variant { members, .. } => case_tys(members),
        _ => Seq::empty(),
    }
}

pub proof fn lemma_lifetime_dep_rank(w: WorldModel, id: TypeID, k: int)
    requires
        world_ready(w),
        has_id(w.defs, id),
        0 <= k < lifetime_deps(kind_of(w, id)).len(),
    ensures
        has_id(w.defs, lifetime_deps(kind_of(w, id))[k]),
        0 <= rank(w, lifetime_deps(kind_of(w, id))[k]) < rank(w, id),
{
    let d = lifetime_deps(kind_of(w, id))[k];
    match kind_of(w, id) {
        KindModel::Bitfld { underlying, members } => {
            assert(layout_deps(kind_of(w, id))[k + 1] == d);
        },
        KindModel::Variant { discriminant, members } => {
            assert(layout_deps(kind_of(w, id))[k + 1] == d);
        },
        _ => {
            assert(layout_deps(kind_of(w, id))[k] == d);
        },
    }
    lemma_dep_rank(w, id, d);
}

/// Whether the view type of `id` borrows: arrays do, records and unions do when one of
/// their members does, and a constant does when its type does.
pub open spec fn needs_lifetime_spec(w: WorldModel, id: TypeID) -> bool
    decreases rank(w, id), 1int, 0int,
    when world_ready(w) && has_id(w.defs, id)
{
    let r = resolve_alias_spec(w, id);
    proof {
        lemma_resolve_alias(w, id);
    }
    match kind_of(w, r) {
        KindModel::Bitfld { .. } | KindModel::Sequence { .. } | KindModel::Variant { .. } =>
            any_needs_lifetime(w, r, 0),
        KindModel::DynamicArray { .. } | KindModel::FixedArray { .. } => true,
        KindModel::Const { ty, .. } => {
            proof {
                assert(layout_deps(kind_of(w, r))[0] == ty);
                lemma_dep_rank(w, r, ty);
            }
            needs_lifetime_spec(w, ty)
        },
        _ => false,
    }
}

/// Whether one of the members of `owner`, from `i` on, borrows.
pub open spec fn any_needs_lifetime(w: WorldModel, owner: TypeID, i: int) -> bool
    decreases rank(w, owner), 0int, lifetime_deps(kind_of(w, owner)).len() - i,
    when world_ready(w) && has_id(w.defs, owner) && 0 <= i
{
    let ds = lifetime_deps(kind_of(w, owner));
    if i >= ds.len() {
        false
    } else {
        proof {
            lemma_lifetime_dep_rank(w, owner, i);
        }
        needs_lifetime_spec(w, ds[i]) || any_needs_lifetime(w, owner, i + 1)
    }
}


// ---------------------------------------------------------------------------
// Names and type spellings
// ---------------------------------------------------------------------------
/// The Rust identifier generated for a definition: its name, sanitized.
pub open spec fn rust_name(w: WorldModel, id: TypeID) -> Seq<char> {
    rust_ident(def_of(w.defs, id).ident)
}

/// The Rust spelling of a primitive; floating-point types narrower than 32 bits have
/// none.
pub open spec fn map_primitive_spec(p: Primitive) -> Result<Seq<char>, Seq<char>> {
    if p.dtype == Datatype::Float && (p.width == BitWidth::W8 || p.width == BitWidth::W16) {
        Err("unsupported primitive type"@)
    } else {
        Ok(p.spec_name())
    }
}

/// The name of the `read_*` helper for a primitive.
pub open spec fn read_method_spec(p: Primitive) -> Result<Seq<char>, Seq<char>> {
    match map_primitive_spec(p) {
        Ok(n) => Ok("read_"@ + n),
        Err(e) => Err(e),
    }
}

/// The name of the `write_*` helper for a primitive.
pub open spec fn write_method_spec(p: Primitive) -> Result<Seq<char>, Seq<char>> {
    match map_primitive_spec(p) {
        Ok(n) => Ok("write_"@ + n),
        Err(e) => Err(e),
    }
}

/// Maps a primitive to the Rust primitive type name.
pub fn map_primitive(p: Primitive) -> (r: Result<&'static str, String>)
    ensures
        match (r, map_primitive_spec(p)) {
            (Ok(a), Ok(b)) => a@ == b,
            (Err(a), Err(b)) => a@ == b,
            _ => false,
        },
{
    proof {
        reveal_strlit("u8");
        reveal_strlit("u16");
        reveal_strlit("u32");
        reveal_strlit("u64");
        reveal_strlit("i8");
        reveal_strlit("i16");
        reveal_strlit("i32");
        reveal_strlit("i64");
        reveal_strlit("f32");
        reveal_strlit("f64");
        reveal_strlit("u");
        reveal_strlit("i");
        reveal_strlit("f");
        reveal_strlit("8");
        reveal_strlit("16");
        reveal_strlit("32");
        reveal_strlit("64");
        assert("u"@ + "8"@ =~= "u8"@);
        assert("u"@ + "16"@ =~= "u16"@);
        assert("u"@ + "32"@ =~= "u32"@);
        assert("u"@ + "64"@ =~= "u64"@);
        assert("i"@ + "8"@ =~= "i8"@);
        assert("i"@ + "16"@ =~= "i16"@);
        assert("i"@ + "32"@ =~= "i32"@);
        assert("i"@ + "64"@ =~= "i64"@);
        assert("f"@ + "32"@ =~= "f32"@);
        assert("f"@ + "64"@ =~= "f64"@);
    }
    match (p.dtype, p.sign, p.width) {
        (Datatype::Integer, Signedness::Unsigned, BitWidth::W8) => Ok("u8"),
        (Datatype::Integer, Signedness::Unsigned, BitWidth::W16) => Ok("u16"),
        (Datatype::Integer, Signedness::Unsigned, BitWidth::W32) => Ok("u32"),
        (Datatype::Integer, Signedness::Unsigned, BitWidth::W64) => Ok("u64"),
        (Datatype::Integer, Signedness::Signed, BitWidth::W8) => Ok("i8"),
        (Datatype::Integer, Signedness::Signed, BitWidth::W16) => Ok("i16"),
        (Datatype::Integer, Signedness::Signed, BitWidth::W32) => Ok("i32"),
        (Datatype::Integer, Signedness::Signed, BitWidth::W64) => Ok("i64"),
        (Datatype::Float, _, BitWidth::W32) => Ok("f32"),
        (Datatype::Float, _, BitWidth::W64) => Ok("f64"),
        _ => Err("unsupported primitive type".to_string()),
    }
}

/// The reader helper for a primitive.
pub fn read_primitive_method_direct(p: Primitive) -> (r: Result<String, String>)
    ensures
        match (r, read_method_spec(p)) {
            (Ok(a), Ok(b)) => a@ == b,
            (Err(a), Err(b)) => a@ == b,
            _ => false,
        },
{
    let n = map_primitive(p)?;
    Ok(cat2("read_", n))
}

/// The writer helper for a primitive.
pub fn write_primitive_method_direct(p: Primitive) -> (r: Result<String, String>)
    ensures
        match (r, write_method_spec(p)) {
            (Ok(a), Ok(b)) => a@ == b,
            (Err(a), Err(b)) => a@ == b,
            _ => false,
        },
{
    let n = map_primitive(p)?;
    Ok(cat2("write_", n))
}

/// The owned Rust type of `id`: a primitive, `()`, or the name of what it aliases.
pub open spec fn rust_type_spec(w: WorldModel, id: TypeID) -> Result<Seq<char>, Seq<char>> {
    let r = resolve_alias_spec(w, id);
    match kind_of(w, r) {
        KindModel::Primitive { primitive } => map_primitive_spec(primitive),
        KindModel::Void => Ok("()"@),
        _ => Ok(rust_name(w, r)),
    }
}

/// The type the `read` module declares for `id`, keeping alias names.
pub open spec fn read_decl_type_spec(w: WorldModel, id: TypeID) -> Result<Seq<char>, Seq<char>> {
    match kind_of(w, id) {
        KindModel::Primitive { primitive } => map_primitive_spec(primitive),
        KindModel::Void => Ok("()"@),
        KindModel::Alias { .. } => Ok(rust_name(w, id)),
        _ => Ok(rust_name(w, resolve_alias_spec(w, id))),
    }
}

/// The element kind of an array whose elements can be read and written in bulk: a
/// primitive or a pack, named directly (not through an alias), or the primitive that a
/// constant element names directly.
pub open spec fn bulk_kind_spec(w: WorldModel, id: TypeID) -> Option<KindModel> {
    let elem = match kind_of(w, id) {
        KindModel::DynamicArray { value_type, .. } => Some(value_type),
        KindModel::FixedArray { value_type, .. } => Some(value_type),
        _ => None,
    };
    match elem {
        None => None,
        Some(v) => match kind_of(w, v) {
            KindModel::Primitive { .. } | KindModel::Pack { .. } => Some(kind_of(w, v)),
            KindModel::Const { ty, .. } => if kind_of(w, ty) is Primitive {
                Some(kind_of(w, ty))
            } else {
                None
            },
            _ => None,
        },
    }
}

/// A constant stands for its type where the backend asks for a primitive: its direct and
/// underlying primitives, and whether its view borrows, are those of its type; and an
/// array whose element is a constant of a primitive type is read and written in bulk as
/// that primitive.
pub proof fn lemma_constants_follow_their_type(w: WorldModel, id: TypeID)
    requires
        world_ready(w),
        has_id(w.defs, id),
        kind_of(w, id) is Const,
    ensures
        direct_primitive_spec(w, id) == direct_primitive_spec(w, kind_of(w, id)->Const_ty),
        underlying_primitive_spec(w, id) == underlying_primitive_spec(w, kind_of(w, id)->Const_ty),
        needs_lifetime_spec(w, id) == needs_lifetime_spec(w, kind_of(w, id)->Const_ty),
        forall|arr: TypeID|
            has_id(w.defs, arr) && (#[trigger] kind_of(w, arr) matches KindModel::DynamicArray { value_type, .. }
                && value_type == id) && kind_of(w, kind_of(w, id)->Const_ty) is Primitive ==> bulk_kind_spec(w, arr)
                == Some(kind_of(w, kind_of(w, id)->Const_ty)),
        forall|arr: TypeID|
            has_id(w.defs, arr) && (#[trigger] kind_of(w, arr) matches KindModel::FixedArray { value_type, .. }
                && value_type == id) && kind_of(w, kind_of(w, id)->Const_ty) is Primitive ==> bulk_kind_spec(w, arr)
                == Some(kind_of(w, kind_of(w, id)->Const_ty)),
{
    let ty = kind_of(w, id)->Const_ty;
    assert(layout_deps(kind_of(w, id))[0] == ty);
    lemma_dep_rank(w, id, ty);
    lemma_resolve_alias(w, id);
    assert(resolve_alias_spec(w, id) == id);
}

/// `<lt>` when the view of `id` borrows.
pub open spec fn lifetime_suffix(w: WorldModel, id: TypeID, lt: Seq<char>) -> Seq<char> {
    if needs_lifetime_spec(w, id) {
        "<"@ + lt + ">"@
    } else {
        Seq::empty()
    }
}

/// The view type of `id` with lifetime `lt`.
pub open spec fn view_type_spec(w: WorldModel, id: TypeID, lt: Seq<char>) -> Result<Seq<char>, Seq<char>> {
    let r = resolve_alias_spec(w, id);
    let name = rust_name(w, r);
    match kind_of(w, r) {
        KindModel::Primitive { primitive } => map_primitive_spec(primitive),
        KindModel::Void => Ok("()"@),
        KindModel::Enum { .. } => Ok(name),
        KindModel::DynamicArray { .. } | KindModel::FixedArray { .. } => Ok(
            name + "View<"@ + lt + ">"@,
        ),
        _ => Ok(name + lifetime_suffix(w, r, lt)),
    }
}

/// The type the `write` module declares for `id` with lifetime `lt`, keeping alias names.
pub open spec fn write_decl_type_spec(w: WorldModel, id: TypeID, lt: Seq<char>) -> Result<
    Seq<char>,
    Seq<char>,
> {
    match kind_of(w, id) {
        KindModel::Primitive { primitive } => map_primitive_spec(primitive),
        KindModel::Void => Ok("()"@),
        KindModel::Alias { .. } => Ok(rust_name(w, id) + lifetime_suffix(w, id, lt)),
        KindModel::Enum { .. } | KindModel::Bitfld { .. } | KindModel::Pack { .. } => Ok(
            rust_name(w, resolve_alias_spec(w, id)),
        ),
        KindModel::Sequence { .. } | KindModel::Variant { .. } => Ok(
            rust_name(w, resolve_alias_spec(w, id)) + lifetime_suffix(w, id, lt),
        ),
        KindModel::DynamicArray { .. } | KindModel::FixedArray { .. } => Ok(
            rust_name(w, resolve_alias_spec(w, id)) + "View<"@ + lt + ">"@,
        ),
        KindModel::Const { .. } => Ok(rust_name(w, id)),
    }
}

/// Names and options for generating Rust code from a world.
pub struct RustContext<'a> {
    world: &'a World,
    options: &'a GlobalOptions,
    names: Vec<(TypeID, String)>,
}

impl<'a> RustContext<'a> {
    pub closed spec fn world_model(&self) -> WorldModel {
        self.world@
    }

    /// The array guard, in bytes, if there is one.
    pub closed spec fn guard(&self) -> Option<u64> {
        self.options.guard_array_size
    }

    /// The array guard, in bytes, if there is one.
    pub fn guard_array_size(&self) -> (r: Option<u64>)
        ensures
            r == self.guard(),
    {
        self.options.guard_array_size
    }

    pub closed spec fn ready(&self) -> bool {
        &&& world_ready(self.world@)
        &&& forall|k: int|
            0 <= k < self.names@.len() ==> has_id(self.world@.defs, (#[trigger] self.names@[k]).0)
                && self.names@[k].1@ == rust_name(self.world@, self.names@[k].0)
        &&& forall|id: TypeID|
            has_id(self.world@.defs, id) ==> exists|k: int|
                0 <= k < self.names@.len() && (#[trigger] self.names@[k]).0 == id
    }

    pub proof fn lemma_ready_world(&self)
        requires
            self.ready(),
        ensures
            world_ready(self.world_model()),
    {
    }

    /// A context over `world`: every definition gets its sanitized name.
    pub fn new(world: &'a World, options: &'a GlobalOptions) -> (r: Result<Self, String>)
        requires
            world_ready(world@),
        ensures
            r matches Ok(c) && c.ready() && c.world_model() == world@ && c.guard()
                == options.guard_array_size,
    {
        let defs = world.definitions();
        let ghost d = world@.defs;
        let mut names: Vec<(TypeID, String)> = Vec::new();
        let mut i: usize = 0;
        while i < defs.len()
            invariant
                d == world@.defs,
                d == crate::compile::types::defs_model(defs@),
                world_ready(world@),
                i <= defs@.len(),
                names@.len() == i,
                forall|k: int|
                    0 <= k < i ==> (#[trigger] names@[k]).0 == d[k].0 && names@[k].1@ == rust_ident(
                        d[k].1.ident,
                    ),
            decreases defs.len() - i,
        {
            let e = &defs[i];
            assert(d[i as int] == (e.0, e.1@));
            names.push((e.0, sanitize(e.1.ident.as_str())));
            i = i + 1;
        }
        let r = RustContext { world, options, names };
        proof {
            assert forall|k: int| 0 <= k < r.names@.len() implies has_id(d, (#[trigger] r.names@[k]).0)
                && r.names@[k].1@ == rust_name(world@, r.names@[k].0) by {
                crate::compile::toposort::lemma_distinct_def_index(d, k);
            }
            assert forall|id: TypeID| has_id(d, id) implies exists|k: int|
                0 <= k < r.names@.len() && (#[trigger] r.names@[k]).0 == id by {
                lemma_def_index(d, id);
                let j = crate::compile::types::def_index(d, id);
                assert(r.names@[j].0 == id);
            }
        }
        Ok(r)
    }

    /// The definition of `id`.
    pub fn lookup(&self, id: TypeID) -> (r: &Type)
        requires
            self.ready(),
            has_id(self.world_model().defs, id),
        ensures
            r@ == def_of(self.world_model().defs, id),
    {
        self.world.lookup(id)
    }

    /// The definitions in dependency order.
    pub fn types(&self) -> (r: Vec<(TypeID, &Type)>)
        requires
            self.ready(),
        ensures
            r@.len() == self.world_model().sorted.len(),
            forall|k: int|
                0 <= k < r@.len() ==> (#[trigger] r@[k]).0 == self.world_model().sorted[k] && r@[k].1@
                    == def_of(self.world_model().defs, r@[k].0) && has_id(self.world_model().defs, r@[k].0),
    {
        let r = self.world.iter();
        proof {
            let w = self.world@;
            let keep = |id: TypeID| has_id(w.defs, id);
            assert forall|k: int| 0 <= k < w.sorted.len() implies keep(w.sorted[k]) by {
                assert(crate::compile::toposort::smallest_ready(w.defs, w.sorted.take(k), w.sorted[k]));
                let i = choose|i: int|
                    crate::compile::toposort::ready(w.defs, w.sorted.take(k), i) && w.defs[i].0
                        == w.sorted[k];
                lemma_def_index(w.defs, w.sorted[k]);
            }
            w.sorted.lemma_all_neg_filter_empty(|id: TypeID| !keep(id));
            assert(w.sorted.filter(keep) =~= w.sorted) by {
                lemma_filter_all(w.sorted, keep);
            }
        }
        r
    }

    /// The generated Rust identifier for `id`.
    pub fn name_of(&self, id: TypeID) -> (r: String)
        requires
            self.ready(),
            has_id(self.world_model().defs, id),
        ensures
            r@ == rust_name(self.world_model(), id),
    {
        let mut i: usize = 0;
        while i < self.names.len()
            invariant
                self.ready(),
                has_id(self.world@.defs, id),
                i <= self.names@.len(),
                forall|k: int| 0 <= k < i ==> (#[trigger] self.names@[k]).0 != id,
            decreases self.names.len() - i,
        {
            if self.names[i].0 == id {
                return self.names[i].1.clone();
            }
            i = i + 1;
        }
        proof {
            let k = choose|k: int| 0 <= k < self.names@.len() && (#[trigger] self.names@[k]).0 == id;
            assert(self.names@[k].0 != id);
        }
        String::new()
    }

    /// Follows aliases.
    pub fn resolve_alias(&self, id: TypeID) -> (r: TypeID)
        requires
            self.ready(),
            has_id(self.world_model().defs, id),
        ensures
            r == resolve_alias_spec(self.world_model(), id),
    {
        let ghost w = self.world@;
        let mut cur = id;
        loop
            invariant
                self.ready(),
                w == self.world@,
                has_id(w.defs, cur),
                resolve_alias_spec(w, id) == resolve_alias_spec(w, cur),
            decreases rank(w, cur),
        {
            match &self.world.lookup(cur).kind {
                TypeKind::Alias(a) => {
                    proof {
                        assert(layout_deps(kind_of(w, cur))[0] == a.other);
                        lemma_dep_rank(w, cur, a.other);
                    }
                    cur = a.other;
                },
                _ => {
                    return cur;
                },
            }
        }
    }

    /// The primitive `id` is, following aliases and constants.
    pub fn direct_primitive(&self, id: TypeID) -> (r: Option<Primitive>)
        requires
            self.ready(),
            has_id(self.world_model().defs, id),
        ensures
            r == direct_primitive_spec(self.world_model(), id),
        decreases rank(self.world_model(), id),
    {
        let ghost w = self.world@;
        match &self.world.lookup(id).kind {
            TypeKind::Primitive(p) => Some(*p),
            TypeKind::Alias(a) => {
                proof {
                    assert(layout_deps(kind_of(w, id))[0] == a.other);
                    lemma_dep_rank(w, id, a.other);
                }
                self.direct_primitive(a.other)
            },
            TypeKind::Const(c) => {
                proof {
                    assert(layout_deps(kind_of(w, id))[0] == c.ty);
                    lemma_dep_rank(w, id, c.ty);
                }
                self.direct_primitive(c.ty)
            },
            _ => None,
        }
    }

    /// The primitive behind `id`, following aliases and enums.
    pub fn underlying_primitive(&self, id: TypeID) -> (r: Option<Primitive>)
        requires
            self.ready(),
            has_id(self.world_model().defs, id),
        ensures
            r == underlying_primitive_spec(self.world_model(), id),
        decreases rank(self.world_model(), id),
    {
        let ghost w = self.world@;
        let ty = self.world.lookup(id);
        match &ty.kind {
            TypeKind::Primitive(p) => Some(*p),
            TypeKind::Alias(a) => {
                proof {
                    assert(layout_deps(kind_of(w, id))[0] == a.other);
                    lemma_dep_rank(w, id, a.other);
                }
                self.underlying_primitive(a.other)
            },
            TypeKind::Enum(e) => {
                proof {
                    assert(layout_deps(kind_of(w, id))[0] == e.underlying);
                    lemma_dep_rank(w, id, e.underlying);
                }
                self.underlying_primitive(e.underlying)
            },
            TypeKind::Const(c) => {
                proof {
                    assert(layout_deps(kind_of(w, id))[0] == c.ty);
                    lemma_dep_rank(w, id, c.ty);
                }
                self.underlying_primitive(c.ty)
            },
            _ => None,
        }
    }

    /// Whether the view type of `id` needs a lifetime parameter.
    pub fn view_needs_lifetime(&self, id: TypeID) -> (r: bool)
        requires
            self.ready(),
            has_id(self.world_model().defs, id),
        ensures
            r == needs_lifetime_spec(self.world_model(), id),
        decreases rank(self.world_model(), id),
    {
        let ghost w = self.world@;
        let resolved = self.resolve_alias(id);
        proof {
            lemma_resolve_alias(w, id);
        }
        let ty = self.world.lookup(resolved);
        let ghost ds = lifetime_deps(kind_of(w, resolved));
        match &ty.kind {
            TypeKind::Bitfld(b) => {
                let mut k: usize = 0;
                while k < b.members.len()
                    invariant
                        self.ready(),
                        w == self.world@,
                        has_id(w.defs, resolved),
                        rank(w, resolved) <= rank(w, id),
                        ds == lifetime_deps(kind_of(w, resolved)),
                        ds.len() == b.members@.len(),
                        forall|j: int| 0 <= j < ds.len() ==> ds[j] == (#[trigger] b.members@[j]).underlying,
                        k <= ds.len(),
                        needs_lifetime_spec(w, id) == any_needs_lifetime(w, resolved, k as int),
                    decreases b.members.len() - k,
                {
                    proof {
                        lemma_lifetime_dep_rank(w, resolved, k as int);
                    }
                    if self.view_needs_lifetime(b.members[k].underlying) {
                        return true;
                    }
                    k = k + 1;
                }
                false
            },
            TypeKind::Sequence(sq) => {
                let mut k: usize = 0;
                while k < sq.members.len()
                    invariant
                        self.ready(),
                        w == self.world@,
                        has_id(w.defs, resolved),
                        rank(w, resolved) <= rank(w, id),
                        ds == lifetime_deps(kind_of(w, resolved)),
                        ds.len() == sq.members@.len(),
                        forall|j: int| 0 <= j < ds.len() ==> ds[j] == (#[trigger] sq.members@[j]).ty,
                        k <= ds.len(),
                        needs_lifetime_spec(w, id) == any_needs_lifetime(w, resolved, k as int),
                    decreases sq.members.len() - k,
                {
                    proof {
                        lemma_lifetime_dep_rank(w, resolved, k as int);
                    }
                    if self.view_needs_lifetime(sq.members[k].ty) {
                        return true;
                    }
                    k = k + 1;
                }
                false
            },
            TypeKind::Variant(v) => {
                let mut k: usize = 0;
                while k < v.members.len()
                    invariant
                        self.ready(),
                        w == self.world@,
                        has_id(w.defs, resolved),
                        rank(w, resolved) <= rank(w, id),
                        ds == lifetime_deps(kind_of(w, resolved)),
                        ds.len() == v.members@.len(),
                        forall|j: int| 0 <= j < ds.len() ==> ds[j] == (#[trigger] v.members@[j]).ty,
                        k <= ds.len(),
                        needs_lifetime_spec(w, id) == any_needs_lifetime(w, resolved, k as int),
                    decreases v.members.len() - k,
                {
                    proof {
                        lemma_lifetime_dep_rank(w, resolved, k as int);
                    }
                    if self.view_needs_lifetime(v.members[k].ty) {
                        return true;
                    }
                    k = k + 1;
                }
                false
            },
            TypeKind::DynamicArray(_) | TypeKind::FixedArray(_) => true,
            TypeKind::Const(c) => {
                proof {
                    assert(layout_deps(kind_of(w, resolved))[0] == c.ty);
                    lemma_dep_rank(w, resolved, c.ty);
                }
                self.view_needs_lifetime(c.ty)
            },
            _ => false,
        }
    }
}

pub proof fn lemma_filter_all<A>(s: Seq<A>, p: spec_fn(A) -> bool)
    requires
        forall|k: int| 0 <= k < s.len() ==> p(s[k]),
    ensures
        s.filter(p) == s,
    decreases s.len(),
{
    reveal(Seq::filter);
    if s.len() > 0 {
        lemma_filter_all(s.drop_last(), p);
        assert(s.drop_last().push(s.last()) =~= s);
    }
}

pub open spec fn read_method_of_spec(w: WorldModel, id: TypeID) -> Result<Seq<char>, Seq<char>> {
    match underlying_primitive_spec(w, id) {
        None => Err("expected primitive-compatible type"@),
        Some(p) => read_method_spec(p),
    }
}

pub open spec fn write_method_of_spec(w: WorldModel, id: TypeID) -> Result<Seq<char>, Seq<char>> {
    match underlying_primitive_spec(w, id) {
        None => Err("expected primitive-compatible type"@),
        Some(p) => write_method_spec(p),
    }
}

/// The largest count an unsigned size type can hold.
pub open spec fn max_len_spec(w: WorldModel, id: TypeID) -> Result<u128, Seq<char>> {
    match underlying_primitive_spec(w, id) {
        None => Err("expected primitive-compatible type"@),
        Some(p) => if p.dtype == Datatype::Integer && p.sign == Signedness::Unsigned {
            Ok(
                match p.width {
                    BitWidth::W8 => 0xff,
                    BitWidth::W16 => 0xffff,
                    BitWidth::W32 => 0xffff_ffff,
                    BitWidth::W64 => 0xffff_ffff_ffff_ffff,
                },
            )
        } else {
            Err("array size type must be an unsigned integer"@)
        },
    }
}

/// An expression that reads a value of `id` from `reader`.
pub open spec fn read_expr_spec(w: WorldModel, id: TypeID, reader: Seq<char>) -> Result<
    Seq<char>,
    Seq<char>,
> {
    match kind_of(w, id) {
        KindModel::Primitive { primitive } => match read_method_spec(primitive) {
            Ok(m) => Ok(m + "("@ + reader + ")"@),
            Err(e) => Err(e),
        },
        KindModel::Void => Ok("Ok(())"@),
        KindModel::Alias { .. } => Ok("read_"@ + rust_name(w, id) + "("@ + reader + ")"@),
        _ => Ok("read_"@ + rust_name(w, resolve_alias_spec(w, id)) + "("@ + reader + ")"@),
    }
}

/// The text after writing the statement that writes `value` of type `id`.
pub open spec fn write_value_spec(w: WorldModel, t: Seq<char>, d: nat, id: TypeID, value: Seq<char>) -> Result<
    Seq<char>,
    Seq<char>,
> {
    match kind_of(w, id) {
        KindModel::Primitive { primitive } => match write_method_spec(primitive) {
            Ok(m) => Ok(put(t, d, m + "(writer, "@ + value + ")?;"@)),
            Err(e) => Err(e),
        },
        KindModel::Void => Ok(t),
        KindModel::Enum { underlying, .. } => match write_method_of_spec(w, underlying) {
            Ok(m) => Ok(put(t, d, m + "(writer, "@ + value + " as _)?;"@)),
            Err(e) => Err(e),
        },
        _ => Ok(put(t, d, "write_"@ + rust_name(w, id) + "(writer, "@ + value + ")?;"@)),
    }
}

/// The name of a variant's case for a member: its type's name and its tag value.
pub open spec fn case_name_spec(w: WorldModel, ty: TypeID, value: u64) -> Seq<char> {
    rust_ident(rust_name(w, resolve_alias_spec(w, ty)) + "_"@ + crate::text::decimal(value as nat))
}

/// The text after the optional guard on the byte size of an array being read.
pub open spec fn size_check_spec(t: Seq<char>, d: nat, guard: Option<u64>, count: Seq<char>, vty: Seq<char>) -> Seq<char> {
    match guard {
        None => t,
        Some(limit) => put(
            put(
                put(
                    put(t, d, "let byte_count: u128 = ("@ + count + " as u128)"@),
                    d,
                    "    .checked_mul(std::mem::size_of::<"@ + vty + ">() as u128)"@,
                ),
                d,
                "    .ok_or_else(|| invalid_data(\"array too large\"))?;"@,
            ),
            d,
            "if byte_count > "@ + crate::text::decimal(limit as nat)
                + "u128 { return Err(invalid_data(\"array too large\")); }"@,
        ),
    }
}

impl<'a> RustContext<'a> {
    /// The owned Rust type of `id`.
    pub fn rust_type(&self, id: TypeID) -> (r: Result<String, String>)
        requires
            self.ready(),
            has_id(self.world_model().defs, id),
        ensures
            match (r, rust_type_spec(self.world_model(), id)) {
                (Ok(a), Ok(b)) => a@ == b,
                (Err(a), Err(b)) => a@ == b,
                _ => false,
            },
    {
        let resolved = self.resolve_alias(id);
        proof {
            lemma_resolve_alias(self.world@, id);
        }
        match &self.world.lookup(resolved).kind {
            TypeKind::Primitive(p) => Ok(map_primitive(*p)?.to_string()),
            TypeKind::Void => Ok("()".to_string()),
            _ => Ok(self.name_of(resolved)),
        }
    }

    /// The type the `read` module declares for `id`.
    pub fn rust_read_decl_type(&self, id: TypeID) -> (r: Result<String, String>)
        requires
            self.ready(),
            has_id(self.world_model().defs, id),
        ensures
            match (r, read_decl_type_spec(self.world_model(), id)) {
                (Ok(a), Ok(b)) => a@ == b,
                (Err(a), Err(b)) => a@ == b,
                _ => false,
            },
    {
        match &self.world.lookup(id).kind {
            TypeKind::Primitive(p) => Ok(map_primitive(*p)?.to_string()),
            TypeKind::Void => Ok("()".to_string()),
            TypeKind::Alias(_) => Ok(self.name_of(id)),
            _ => {
                let r = self.resolve_alias(id);
                proof {
                    lemma_resolve_alias(self.world@, id);
                }
                Ok(self.name_of(r))
            },
        }
    }

    /// The element kind of an array that can be read and written in bulk.
    pub fn can_bulk_array(&self, id: TypeID) -> (r: Option<&TypeKind>)
        requires
            self.ready(),
            has_id(self.world_model().defs, id),
        ensures
            match (r, bulk_kind_spec(self.world_model(), id)) {
                (Some(k), Some(m)) => k@ == m,
                (None, None) => true,
                _ => false,
            },
    {
        let ghost w = self.world@;
        let elem = match &self.world.lookup(id).kind {
            TypeKind::DynamicArray(d) => {
                proof {
                    assert(refs(kind_of(w, id))[1] == d.value_type);
                    lemma_closed_ref(w.defs, id, d.value_type);
                }
                d.value_type
            },
            TypeKind::FixedArray(f) => {
                proof {
                    assert(layout_deps(kind_of(w, id))[0] == f.value_type);
                    lemma_dep_rank(w, id, f.value_type);
                }
                f.value_type
            },
            _ => {
                return None;
            },
        };
        let k = &self.world.lookup(elem).kind;
        match k {
            TypeKind::Primitive(_) | TypeKind::Pack(_) => Some(k),
            TypeKind::Const(c) => {
                proof {
                    assert(layout_deps(kind_of(w, elem))[0] == c.ty);
                    lemma_dep_rank(w, elem, c.ty);
                }
                let target = &self.world.lookup(c.ty).kind;
                match target {
                    TypeKind::Primitive(_) => Some(target),
                    _ => None,
                }
            },
            _ => None,
        }
    }

    /// The view type of `id` with lifetime `lifetime`.
    pub fn rust_view_type(&self, id: TypeID, lifetime: &str) -> (r: Result<String, String>)
        requires
            self.ready(),
            has_id(self.world_model().defs, id),
        ensures
            match (r, view_type_spec(self.world_model(), id, lifetime@)) {
                (Ok(a), Ok(b)) => a@ == b,
                (Err(a), Err(b)) => a@ == b,
                _ => false,
            },
    {
        let resolved = self.resolve_alias(id);
        proof {
            lemma_resolve_alias(self.world@, id);
        }
        let ty = self.world.lookup(resolved);
        let name = self.name_of(resolved);
        let needs_lt = self.view_needs_lifetime(resolved);
        let lt_suffix = if needs_lt {
            cat3("<", lifetime, ">")
        } else {
            String::new()
        };
        match &ty.kind {
            TypeKind::Primitive(p) => Ok(map_primitive(*p)?.to_string()),
            TypeKind::Void => Ok("()".to_string()),
            TypeKind::Enum(_) => Ok(name),
            TypeKind::DynamicArray(_) | TypeKind::FixedArray(_) => Ok(
                cat4(name.as_str(), "View<", lifetime, ">"),
            ),
            _ => Ok(cat2(name.as_str(), lt_suffix.as_str())),
        }
    }

    /// The type the `write` module declares for `id` with lifetime `lifetime`.
    pub fn rust_write_decl_type(&self, id: TypeID, lifetime: &str) -> (r: Result<String, String>)
        requires
            self.ready(),
            has_id(self.world_model().defs, id),
        ensures
            match (r, write_decl_type_spec(self.world_model(), id, lifetime@)) {
                (Ok(a), Ok(b)) => a@ == b,
                (Err(a), Err(b)) => a@ == b,
                _ => false,
            },
    {
        let ghost w = self.world@;
        proof {
            lemma_resolve_alias(w, id);
        }
        let suffix = if self.view_needs_lifetime(id) {
            cat3("<", lifetime, ">")
        } else {
            String::new()
        };
        match &self.world.lookup(id).kind {
            TypeKind::Primitive(p) => Ok(map_primitive(*p)?.to_string()),
            TypeKind::Void => Ok("()".to_string()),
            TypeKind::Alias(_) => {
                let name = self.name_of(id);
                Ok(cat2(name.as_str(), suffix.as_str()))
            },
            TypeKind::Enum(_) | TypeKind::Bitfld(_) | TypeKind::Pack(_) => Ok(
                self.name_of(self.resolve_alias(id)),
            ),
            TypeKind::Sequence(_) | TypeKind::Variant(_) => {
                let name = self.name_of(self.resolve_alias(id));
                Ok(cat2(name.as_str(), suffix.as_str()))
            },
            TypeKind::DynamicArray(_) | TypeKind::FixedArray(_) => {
                let name = self.name_of(self.resolve_alias(id));
                Ok(cat4(name.as_str(), "View<", lifetime, ">"))
            },
            TypeKind::Const(_) => Ok(self.name_of(id)),
        }
    }

    /// The reader helper for the primitive behind `id`.
    pub fn read_primitive_method(&self, id: TypeID) -> (r: Result<String, String>)
        requires
            self.ready(),
            has_id(self.world_model().defs, id),
        ensures
            match (r, read_method_of_spec(self.world_model(), id)) {
                (Ok(a), Ok(b)) => a@ == b,
                (Err(a), Err(b)) => a@ == b,
                _ => false,
            },
    {
        match self.underlying_primitive(id) {
            Some(p) => read_primitive_method_direct(p),
            None => Err("expected primitive-compatible type".to_string()),
        }
    }

    /// The writer helper for the primitive behind `id`.
    pub fn write_primitive_method(&self, id: TypeID) -> (r: Result<String, String>)
        requires
            self.ready(),
            has_id(self.world_model().defs, id),
        ensures
            match (r, write_method_of_spec(self.world_model(), id)) {
                (Ok(a), Ok(b)) => a@ == b,
                (Err(a), Err(b)) => a@ == b,
                _ => false,
            },
    {
        match self.underlying_primitive(id) {
            Some(p) => write_primitive_method_direct(p),
            None => Err("expected primitive-compatible type".to_string()),
        }
    }

    /// The largest count the size type `id` can encode.
    pub fn max_len_for_size(&self, id: TypeID) -> (r: Result<u128, String>)
        requires
            self.ready(),
            has_id(self.world_model().defs, id),
        ensures
            match (r, max_len_spec(self.world_model(), id)) {
                (Ok(a), Ok(b)) => a == b,
                (Err(a), Err(b)) => a@ == b,
                _ => false,
            },
    {
        let prim = match self.underlying_primitive(id) {
            Some(p) => p,
            None => return Err("expected primitive-compatible type".to_string()),
        };
        match (prim.dtype, prim.sign, prim.width) {
            (Datatype::Integer, Signedness::Unsigned, BitWidth::W8) => Ok(0xff),
            (Datatype::Integer, Signedness::Unsigned, BitWidth::W16) => Ok(0xffff),
            (Datatype::Integer, Signedness::Unsigned, BitWidth::W32) => Ok(0xffff_ffff),
            (Datatype::Integer, Signedness::Unsigned, BitWidth::W64) => Ok(0xffff_ffff_ffff_ffff),
            _ => Err("array size type must be an unsigned integer".to_string()),
        }
    }

    /// An expression that reads a value of `id` from `reader_ident`.
    pub fn read_expr(&self, id: TypeID, reader_ident: &str) -> (r: Result<String, String>)
        requires
            self.ready(),
            has_id(self.world_model().defs, id),
        ensures
            match (r, read_expr_spec(self.world_model(), id, reader_ident@)) {
                (Ok(a), Ok(b)) => a@ == b,
                (Err(a), Err(b)) => a@ == b,
                _ => false,
            },
    {
        match &self.world.lookup(id).kind {
            TypeKind::Primitive(p) => {
                let method = read_primitive_method_direct(*p)?;
                Ok(cat4(method.as_str(), "(", reader_ident, ")"))
            },
            TypeKind::Void => Ok("Ok(())".to_string()),
            TypeKind::Alias(_) => {
                let name = self.name_of(id);
                Ok(cat5("read_", name.as_str(), "(", reader_ident, ")"))
            },
            _ => {
                let r = self.resolve_alias(id);
                proof {
                    lemma_resolve_alias(self.world@, id);
                }
                let name = self.name_of(r);
                Ok(cat5("read_", name.as_str(), "(", reader_ident, ")"))
            },
        }
    }

    /// Writes the statement that writes `value_expr` of type `id` to `writer`.
    pub fn write_value(&self, out: &mut CodeWriter, id: TypeID, value_expr: &str) -> (r: Result<(), String>)
        requires
            self.ready(),
            has_id(self.world_model().defs, id),
        ensures
            final(out).depth() == old(out).depth(),
            final(out).same_marks(old(out)),
            match (r, write_value_spec(self.world_model(), old(out).text(), old(out).depth(), id, value_expr@)) {
                (Ok(_), Ok(t)) => final(out).text() == t,
                (Err(a), Err(b)) => a@ == b,
                _ => false,
            },
    {
        let ghost w = self.world@;
        match &self.world.lookup(id).kind {
            TypeKind::Primitive(p) => {
                let method = write_primitive_method_direct(*p)?;
                out.wln(&cat4(method.as_str(), "(writer, ", value_expr, ")?;"));
            },
            TypeKind::Void => {},
            TypeKind::Enum(e) => {
                proof {
                    assert(layout_deps(kind_of(w, id))[0] == e.underlying);
                    lemma_dep_rank(w, id, e.underlying);
                }
                let method = self.write_primitive_method(e.underlying)?;
                out.wln(&cat4(method.as_str(), "(writer, ", value_expr, " as _)?;"));
            },
            _ => {
                let name = self.name_of(id);
                out.wln(&cat5("write_", name.as_str(), "(writer, ", value_expr, ")?;"));
            },
        }
        Ok(())
    }

    /// The case name for a variant member of type `ty` with tag `value`.
    pub fn variant_case_name(&self, ty: TypeID, value: u64) -> (r: String)
        requires
            self.ready(),
            has_id(self.world_model().defs, ty),
        ensures
            r@ == case_name_spec(self.world_model(), ty, value),
    {
        let resolved = self.resolve_alias(ty);
        proof {
            lemma_resolve_alias(self.world@, ty);
        }
        let base = self.name_of(resolved);
        let v = crate::text::u64_to_string(value);
        let raw = cat3(base.as_str(), "_", v.as_str());
        sanitize(raw.as_str())
    }

    /// Writes the optional guard on the byte size of an array being read.
    pub fn insert_optional_size_check(&self, dest: &mut CodeWriter, count_var_name: &str, value_ty_name: &str)
        ensures
            final(dest).depth() == old(dest).depth(),
            final(dest).same_marks(old(dest)),
            final(dest).text() == size_check_spec(
                old(dest).text(),
                old(dest).depth(),
                self.guard(),
                count_var_name@,
                value_ty_name@,
            ),
    {
        let byte_limit = match self.options.guard_array_size {
            Some(b) => b,
            None => {
                return;
            },
        };
        dest.wln(&cat3("let byte_count: u128 = (", count_var_name, " as u128)"));
        dest.wln(&cat3("    .checked_mul(std::mem::size_of::<", value_ty_name, ">() as u128)"));
        dest.wln("    .ok_or_else(|| invalid_data(\"array too large\"))?;");
        let limit = crate::text::u64_to_string(byte_limit);
        dest.wln(
            &cat3(
                "if byte_count > ",
                limit.as_str(),
                "u128 { return Err(invalid_data(\"array too large\")); }",
            ),
        );
    }
}
} // verus!
