//! The C++ backend: one header with a `readers` and a `writers` namespace, each with a
//! type per definition and `read`/`write` templates over a reader or writer.
use vstd::prelude::*;

use super::rust::{
    kind_of, lemma_dep_rank, lemma_resolve_alias, rank, resolve_alias_spec, rust_name,
    world_ready, GlobalOptions, RustContext,
};
use super::{cat2, cat3, cat4, cat5, lemma_braces, put, rust_ident, sanitize, CodeWriter};
use crate::compile::toposort::layout_deps;
use crate::compile::types::{
    def_of, has_id, BitWidth, Datatype, KindModel, Primitive, Signedness, TypeID, TypeKind,
    World, WorldModel,
};

verus! {

/// The two namespaces of the generated header.
#[derive(Debug, Clone, Copy, PartialEq, Eq, Structural)]
pub enum Namespace {
    Read,
    Write,
}

/// The suffix of type names in a namespace.
pub open spec fn ns_suffix(ns: Namespace) -> Seq<char> {
    match ns {
        Namespace::Read => "Reader"@,
        Namespace::Write => "Writer"@,
    }
}

/// The name of a namespace.
pub open spec fn ns_name(ns: Namespace) -> Seq<char> {
    match ns {
        Namespace::Read => "readers"@,
        Namespace::Write => "writers"@,
    }
}

/// The C++ name of the type `id` in namespace `ns`.
pub open spec fn cpp_name(w: WorldModel, id: TypeID, ns: Namespace) -> Seq<char> {
    rust_name(w, id) + ns_suffix(ns)
}

/// The C++ spelling of a primitive; floating-point types narrower than 32 bits have none.
pub open spec fn cpp_primitive_spec(p: Primitive) -> Result<Seq<char>, Seq<char>> {
    match p.dtype {
        Datatype::Integer => Ok(
            match (p.sign, p.width) {
                (Signedness::Unsigned, BitWidth::W8) => "std::uint8_t"@,
                (Signedness::Unsigned, BitWidth::W16) => "std::uint16_t"@,
                (Signedness::Unsigned, BitWidth::W32) => "std::uint32_t"@,
                (Signedness::Unsigned, BitWidth::W64) => "std::uint64_t"@,
                (Signedness::Signed, BitWidth::W8) => "std::int8_t"@,
                (Signedness::Signed, BitWidth::W16) => "std::int16_t"@,
                (Signedness::Signed, BitWidth::W32) => "std::int32_t"@,
                (Signedness::Signed, BitWidth::W64) => "std::int64_t"@,
            },
        ),
        Datatype::Float => match p.width {
            BitWidth::W32 => Ok("float"@),
            BitWidth::W64 => Ok("double"@),
            _ => Err("unsupported primitive type"@),
        },
    }
}

/// The C++ type of `id` in namespace `ns`: a primitive, `std::monostate`, or its name.
pub open spec fn cpp_type_spec(w: WorldModel, id: TypeID, ns: Namespace) -> Result<Seq<char>, Seq<char>> {
    match kind_of(w, id) {
        KindModel::Primitive { primitive } => cpp_primitive_spec(primitive),
        KindModel::Void => Ok("std::monostate"@),
        _ => Ok(cpp_name(w, id, ns)),
    }
}

/// The primitive behind a type, following aliases and enums; the error names the
/// definition where the chain stops.
pub open spec fn cpp_underlying_spec(w: WorldModel, id: TypeID) -> Result<Primitive, Seq<char>>
    decreases rank(w, id),
    when world_ready(w) && has_id(w.defs, id)
{
    match kind_of(w, id) {
        KindModel::Primitive { primitive } => Ok(primitive),
        KindModel::Alias { other } => {
            proof {
                assert(layout_deps(kind_of(w, id))[0] == other);
                lemma_dep_rank(w, id, other);
            }
            cpp_underlying_spec(w, other)
        },
        KindModel::Enum { underlying, .. } => {
            proof {
                assert(layout_deps(kind_of(w, id))[0] == underlying);
                lemma_dep_rank(w, id, underlying);
            }
            cpp_underlying_spec(w, underlying)
        },
        _ => Err("expected primitive-compatible type for "@ + def_of(w.defs, id).ident),
    }
}

/// Whether values of `id` are plain bytes in C++: packs, enums, bitfields, primitives,
/// `void`, and fixed arrays of those, through aliases.
pub open spec fn cpp_pod_spec(w: WorldModel, id: TypeID) -> bool
    decreases rank(w, id),
    when world_ready(w) && has_id(w.defs, id)
{
    let r = resolve_alias_spec(w, id);
    proof {
        lemma_resolve_alias(w, id);
    }
    match kind_of(w, r) {
        KindModel::Alias { other } => {
            proof {
                assert(layout_deps(kind_of(w, r))[0] == other);
                lemma_dep_rank(w, r, other);
            }
            cpp_pod_spec(w, other)
        },
        KindModel::FixedArray { value_type, .. } => {
            proof {
                assert(layout_deps(kind_of(w, r))[0] == value_type);
                lemma_dep_rank(w, r, value_type);
            }
            cpp_pod_spec(w, value_type)
        },
        KindModel::Variant { .. } | KindModel::Sequence { .. } | KindModel::DynamicArray { .. } => false,
        _ => true,
    }
}

/// Whether an array's elements are read in one piece.
pub open spec fn cpp_bulk_spec(w: WorldModel, id: TypeID) -> bool {
    match kind_of(w, id) {
        KindModel::DynamicArray { value_type, .. } => cpp_pod_spec(w, value_type),
        KindModel::FixedArray { value_type, .. } => cpp_pod_spec(w, value_type),
        _ => false,
    }
}

/// Names and the namespace for generating C++ from a world.
pub struct CppContext<'a> {
    base: RustContext<'a>,
    namespace: String,
}

impl<'a> CppContext<'a> {
    pub closed spec fn world_model(&self) -> WorldModel {
        self.base.world_model()
    }

    pub closed spec fn ready(&self) -> bool {
        self.base.ready()
    }

    /// The array guard, in bytes, if there is one.
    pub closed spec fn guard(&self) -> Option<u64> {
        self.base.guard()
    }

    /// The array guard, in bytes, if there is one.
    pub fn guard_array_size(&self) -> (r: Option<u64>)
        ensures
            r == self.guard(),
    {
        self.base.guard_array_size()
    }

    /// The namespace that holds everything generated.
    pub closed spec fn namespace_spec(&self) -> Seq<char> {
        self.namespace@
    }

    pub proof fn lemma_ready_world(&self)
        requires
            self.ready(),
        ensures
            world_ready(self.world_model()),
    {
        self.base.lemma_ready_world();
    }

    /// A context over `world`: types keep their sanitized names, the namespace is the
    /// sanitized module name.
    pub fn new(world: &'a World, options: &'a GlobalOptions) -> (r: Result<Self, String>)
        requires
            world_ready(world@),
        ensures
            r matches Ok(c) && c.ready() && c.world_model() == world@ && c.namespace_spec()
                == rust_ident(world@.module_name) && c.guard() == options.guard_array_size,
    {
        let base = RustContext::new(world, options)?;
        let namespace = sanitize(world.module_name());
        Ok(CppContext { base, namespace })
    }

    /// The namespace name.
    pub fn namespace(&self) -> (r: &str)
        ensures
            r@ == self.namespace_spec(),
    {
        self.namespace.as_str()
    }

    /// The definitions in dependency order.
    pub fn types(&self) -> (r: Vec<(TypeID, &crate::compile::types::Type)>)
        requires
            self.ready(),
        ensures
            r@.len() == self.world_model().sorted.len(),
            forall|k: int|
                0 <= k < r@.len() ==> (#[trigger] r@[k]).0 == self.world_model().sorted[k] && r@[k].1@
                    == def_of(self.world_model().defs, r@[k].0) && has_id(self.world_model().defs, r@[k].0),
    {
        self.base.types()
    }

    /// The definition of `id`.
    pub fn lookup(&self, id: TypeID) -> (r: &crate::compile::types::Type)
        requires
            self.ready(),
            has_id(self.world_model().defs, id),
        ensures
            r@ == def_of(self.world_model().defs, id),
    {
        self.base.lookup(id)
    }

    /// The name of `id` in namespace `ns`.
    pub fn name_of(&self, id: TypeID, ns: Namespace) -> (r: String)
        requires
            self.ready(),
            has_id(self.world_model().defs, id),
        ensures
            r@ == cpp_name(self.world_model(), id, ns),
    {
        let n = self.base.name_of(id);
        match ns {
            Namespace::Read => cat2(n.as_str(), "Reader"),
            Namespace::Write => cat2(n.as_str(), "Writer"),
        }
    }

    /// The C++ type of `id` in namespace `ns`.
    pub fn cpp_type(&self, id: TypeID, ns: Namespace) -> (r: Result<String, String>)
        requires
            self.ready(),
            has_id(self.world_model().defs, id),
        ensures
            match (r, cpp_type_spec(self.world_model(), id, ns)) {
                (Ok(a), Ok(b)) => a@ == b,
                (Err(a), Err(b)) => a@ == b,
                _ => false,
            },
    {
        match &self.lookup(id).kind {
            TypeKind::Primitive(p) => map_primitive(*p),
            TypeKind::Void => Ok("std::monostate".to_string()),
            _ => Ok(self.name_of(id, ns)),
        }
    }

    /// The primitive behind `id`, following aliases and enums.
    pub fn underlying_primitive(&self, id: TypeID) -> (r: Result<Primitive, String>)
        requires
            self.ready(),
            has_id(self.world_model().defs, id),
        ensures
            match (r, cpp_underlying_spec(self.world_model(), id)) {
                (Ok(a), Ok(b)) => a == b,
                (Err(a), Err(b)) => a@ == b,
                _ => false,
            },
        decreases rank(self.world_model(), id),
    {
        let ghost w = self.world_model();
        proof {
            self.lemma_ready_world();
        }
        let ty = self.lookup(id);
        match &ty.kind {
            TypeKind::Primitive(p) => Ok(*p),
            TypeKind::Alias(a) => {
                proof {
                    assert(layout_deps(kind_of(w, id))[0] == a.other);
                    lemma_dep_rank(w, id, a.other);
                }
                self.underlying_primitive(a.other)
            },
            TypeKind::Enum(e) => {
                proof {
                    assert(layout_deps(kind_of(w, id))[0] == e.underlying);
                    lemma_dep_rank(w, id, e.underlying);
                }
                self.underlying_primitive(e.underlying)
            },
            _ => Err(cat2("expected primitive-compatible type for ", ty.ident.as_str())),
        }
    }

    /// The namespace name of `ns`.
    pub fn namespace_name(&self, ns: Namespace) -> (r: &'static str)
        ensures
            r@ == ns_name(ns),
    {
        match ns {
            Namespace::Read => "readers",
            Namespace::Write => "writers",
        }
    }

    /// Follows aliases.
    pub fn resolve_alias(&self, id: TypeID) -> (r: TypeID)
        requires
            self.ready(),
            has_id(self.world_model().defs, id),
        ensures
            r == resolve_alias_spec(self.world_model(), id),
    {
        self.base.resolve_alias(id)
    }

    /// Whether values of `id` are plain bytes.
    pub fn is_pod(&self, id: TypeID) -> (b: bool)
        requires
            self.ready(),
            has_id(self.world_model().defs, id),
        ensures
            b == cpp_pod_spec(self.world_model(), id),
        decreases rank(self.world_model(), id),
    {
        let ghost w = self.world_model();
        proof {
            self.lemma_ready_world();
            lemma_resolve_alias(w, id);
        }
        let resolved = self.resolve_alias(id);
        match &self.lookup(resolved).kind {
            TypeKind::Alias(a) => {
                proof {
                    assert(layout_deps(kind_of(w, resolved))[0] == a.other);
                    lemma_dep_rank(w, resolved, a.other);
                }
                self.is_pod(a.other)
            },
            TypeKind::FixedArray(f) => {
                proof {
                    assert(layout_deps(kind_of(w, resolved))[0] == f.value_type);
                    lemma_dep_rank(w, resolved, f.value_type);
                }
                self.is_pod(f.value_type)
            },
            TypeKind::Variant(_) | TypeKind::Sequence(_) | TypeKind::DynamicArray(_) => false,
            _ => true,
        }
    }

    /// Whether the array `id` is read in one piece.
    pub fn can_bulk_array(&self, id: TypeID) -> (b: bool)
        requires
            self.ready(),
            has_id(self.world_model().defs, id),
        ensures
            b == cpp_bulk_spec(self.world_model(), id),
    {
        let ghost w = self.world_model();
        proof {
            self.lemma_ready_world();
        }
        match &self.lookup(id).kind {
            TypeKind::DynamicArray(d) => {
                proof {
                    assert(crate::compile::verify::refs(kind_of(w, id))[1] == d.value_type);
                    crate::compile::verify::lemma_closed_ref(w.defs, id, d.value_type);
                }
                self.is_pod(d.value_type)
            },
            TypeKind::FixedArray(f) => {
                proof {
                    assert(layout_deps(kind_of(w, id))[0] == f.value_type);
                    lemma_dep_rank(w, id, f.value_type);
                }
                self.is_pod(f.value_type)
            },
            _ => false,
        }
    }

    /// Whether `id` is `void` itself (not through an alias).
    pub fn is_void(&self, id: TypeID) -> (b: bool)
        requires
            self.ready(),
            has_id(self.world_model().defs, id),
        ensures
            b == (kind_of(self.world_model(), id) is Void),
    {
        matches!(&self.lookup(id).kind, TypeKind::Void)
    }
}

/// Maps a primitive to its C++ type.
pub fn map_primitive(p: Primitive) -> (r: Result<String, String>)
    ensures
        match (r, cpp_primitive_spec(p)) {
            (Ok(a), Ok(b)) => a@ == b,
            (Err(a), Err(b)) => a@ == b,
            _ => false,
        },
{
    match (p.dtype, p.sign, p.width) {
        (Datatype::Integer, Signedness::Unsigned, BitWidth::W8) => Ok("std::uint8_t".to_string()),
        (Datatype::Integer, Signedness::Unsigned, BitWidth::W16) => Ok("std::uint16_t".to_string()),
        (Datatype::Integer, Signedness::Unsigned, BitWidth::W32) => Ok("std::uint32_t".to_string()),
        (Datatype::Integer, Signedness::Unsigned, BitWidth::W64) => Ok("std::uint64_t".to_string()),
        (Datatype::Integer, Signedness::Signed, BitWidth::W8) => Ok("std::int8_t".to_string()),
        (Datatype::Integer, Signedness::Signed, BitWidth::W16) => Ok("std::int16_t".to_string()),
        (Datatype::Integer, Signedness::Signed, BitWidth::W32) => Ok("std::int32_t".to_string()),
        (Datatype::Integer, Signedness::Signed, BitWidth::W64) => Ok("std::int64_t".to_string()),
        (Datatype::Float, _, BitWidth::W32) => Ok("float".to_string()),
        (Datatype::Float, _, BitWidth::W64) => Ok("double".to_string()),
        _ => Err("unsupported primitive type".to_string()),
    }
}

/// `value.` followed by the sanitized member name.
pub fn assign_target(name: &str) -> (r: String)
    ensures
        r@ == "value."@ + rust_ident(name@),
{
    let n = sanitize(name);
    cat2("value.", n.as_str())
}

} // verus!
