//! Compilation of a parsed module: name resolution, dependency ordering and checks.
pub mod convert;
pub mod error;
pub mod merge;
pub mod toposort;
pub mod verify;
pub mod types;

pub use types::{
    Alias, BitRange, BitWidth, Bitfld, BitfldMember, Const, Datatype, DynamicArray, Enum, FitError,
    FixedArray, Pack, Primitive, Sequence, Signedness, StructMember, Type, TypeID, TypeKind,
    Variant, VariantMember, World,
};

use std::sync::Arc;

use vstd::prelude::*;

use crate::intermediate::ast::{first_illegal, legal_typename_char, TypeModel as ITypeModel};
use crate::intermediate::source::{loc, LocationModel};
use crate::intermediate::{Module, Position, SourceCode, SourceLocation, TypeName};
use convert::{
    convert, convert_kind_spec, convert_spec, indexed, lemma_convert_refs, lemma_resolve_first,
    lemma_resolve_from, resolve, CompileState, TypeIDAllocator,
};
use error::{CompileError, ErrorModel};
use toposort::{has_cycle, is_cycle, is_dependency_order, names_along, toposort};
use types::{defs_model, distinct_ids, has_id, lemma_def_index, KindModel, TypeModel, WorldModel};
use verify::{closed, refs, verify, world_problem};

verus! {

/// Builtin `k` (`k < 10`): `i8 i16 i32 i64 u8 u16 u32 u64 f32 f64`.
pub open spec fn builtin_primitive(k: int) -> Primitive {
    Primitive {
        width: if k == 0 || k == 4 {
            BitWidth::W8
        } else if k == 1 || k == 5 {
            BitWidth::W16
        } else if k == 2 || k == 6 || k == 8 {
            BitWidth::W32
        } else {
            BitWidth::W64
        },
        sign: if 4 <= k < 8 {
            Signedness::Unsigned
        } else {
            Signedness::Signed
        },
        dtype: if k >= 8 {
            Datatype::Float
        } else {
            Datatype::Integer
        },
    }
}

/// Name of builtin `k`: the ten primitives, then `void`.
pub open spec fn builtin_name(k: int) -> Seq<char> {
    if k < 10 {
        builtin_primitive(k).spec_name()
    } else {
        "void"@
    }
}

pub open spec fn builtin_loc() -> LocationModel {
    loc("builtin"@, 0, 0)
}

pub open spec fn builtin_def(k: int) -> (TypeID, TypeModel) {
    (
        TypeID(k as u32),
        TypeModel {
            ident: builtin_name(k),
            defined_at: builtin_loc(),
            kind: if k < 10 {
                KindModel::Primitive { primitive: builtin_primitive(k) }
            } else {
                KindModel::Void
            },
        },
    )
}

/// The definitions every world starts with, identifiers 0 to 10.
pub open spec fn builtin_defs() -> Seq<(TypeID, TypeModel)> {
    Seq::new(11, |k: int| builtin_def(k))
}

/// The names known after registering the builtins and the first `n` declarations: entry
/// `j` has identifier `j`.
pub open spec fn table_of(ds: Seq<ITypeModel>, n: int) -> Seq<(Seq<char>, TypeID)> {
    Seq::new(
        (11 + n) as nat,
        |j: int|
            if j < 11 {
                (builtin_name(j), TypeID(j as u32))
            } else {
                (ds[j - 11].ident, TypeID(j as u32))
            },
    )
}

pub open spec fn is_builtin_name(name: Seq<char>) -> bool {
    exists|b: int| 0 <= b < 11 && builtin_name(b) == name
}

/// Whether declaration `i` reuses a builtin name or the name of an earlier declaration.
pub open spec fn clashes(ds: Seq<ITypeModel>, i: int) -> bool {
    is_builtin_name(ds[i].ident) || exists|j: int| 0 <= j < i && ds[j].ident == ds[i].ident
}

/// The first declaration, from `i` on, that reuses a name.
pub open spec fn name_clash(ds: Seq<ITypeModel>, i: int) -> Option<int>
    decreases ds.len() - i,
{
    if i < 0 || i >= ds.len() {
        None
    } else if clashes(ds, i) {
        Some(i)
    } else {
        name_clash(ds, i + 1)
    }
}

/// Where the name that declaration `k` reuses was defined before: the builtins' location,
/// or that of the earlier declaration.
pub open spec fn previous_definition(ds: Seq<ITypeModel>, k: int) -> LocationModel {
    if is_builtin_name(ds[k].ident) {
        builtin_loc()
    } else {
        ds[choose|j: int| 0 <= j < k && ds[j].ident == ds[k].ident].defined_at
    }
}

/// Converts the declarations from `i` on, after those already converted (`acc`).
pub open spec fn convert_all(
    table: Seq<(Seq<char>, TypeID)>,
    ds: Seq<ITypeModel>,
    i: int,
    acc: Seq<(TypeID, TypeModel)>,
) -> Result<Seq<(TypeID, TypeModel)>, ErrorModel>
    decreases ds.len() - i,
{
    if i < 0 || i >= ds.len() {
        Ok(acc)
    } else {
        match convert_spec(table, ds[i]) {
            Err(e) => Err(e),
            Ok(d) => convert_all(table, ds, i + 1, acc.push(d)),
        }
    }
}

/// No two declarations share a name.
pub open spec fn names_distinct(ds: Seq<ITypeModel>) -> bool {
    forall|i: int, j: int| 0 <= i < j < ds.len() ==> ds[i].ident != ds[j].ident
}

/// What compiling converted definitions `defs` of module `name` gives: a cycle, the first
/// broken rule, or the world in dependency order.
pub open spec fn compiled(r: Result<World, CompileError>, defs: Seq<(TypeID, TypeModel)>, name: Seq<char>) -> bool {
    if has_cycle(defs) {
        r matches Err(x) && exists|c: Seq<TypeID>|
            is_cycle(defs, c) && x@ == (ErrorModel::CyclicDefinitions { cycle: names_along(defs, c) })
    } else {
        match world_problem(defs, 0) {
            Some(e) => (r matches Err(x) && x@ == e),
            None => (r matches Ok(w) && w@.defs == defs && is_dependency_order(defs, w@.sorted)
                && w@.module_name == name && closed(defs)),
        }
    }
}

/// What compiling a parsed module gives.
pub open spec fn compile_result(r: Result<World, CompileError>, m: crate::intermediate::ast::ModuleModel) -> bool {
    let ds = m.definitions;
    match name_clash(ds, 0) {
        Some(k) => (r matches Err(x) && x@ == ErrorModel::DuplicateTypeName {
            name: ds[k].ident,
            defined_at: ds[k].defined_at,
            previous: previous_definition(ds, k),
        }),
        None => match convert_all(table_of(ds, ds.len() as int), ds, 0, Seq::empty()) {
            Err(e) => (r matches Err(x) && x@ == e),
            Ok(conv) => compiled(r, builtin_defs() + conv, m.name),
        },
    }
}

} // verus!

verus! {

/// The ten builtin primitives, in identifier order.
fn builtin_primitives() -> (r: Vec<Primitive>)
    ensures
        r@.len() == 10,
        forall|k: int| 0 <= k < 10 ==> #[trigger] r@[k] == builtin_primitive(k),
{
    let mut v: Vec<Primitive> = Vec::new();
    v.push(Primitive { width: BitWidth::W8, sign: Signedness::Signed, dtype: Datatype::Integer });
    v.push(Primitive { width: BitWidth::W16, sign: Signedness::Signed, dtype: Datatype::Integer });
    v.push(Primitive { width: BitWidth::W32, sign: Signedness::Signed, dtype: Datatype::Integer });
    v.push(Primitive { width: BitWidth::W64, sign: Signedness::Signed, dtype: Datatype::Integer });
    v.push(Primitive { width: BitWidth::W8, sign: Signedness::Unsigned, dtype: Datatype::Integer });
    v.push(Primitive { width: BitWidth::W16, sign: Signedness::Unsigned, dtype: Datatype::Integer });
    v.push(Primitive { width: BitWidth::W32, sign: Signedness::Unsigned, dtype: Datatype::Integer });
    v.push(Primitive { width: BitWidth::W64, sign: Signedness::Unsigned, dtype: Datatype::Integer });
    v.push(Primitive { width: BitWidth::W32, sign: Signedness::Signed, dtype: Datatype::Float });
    v.push(Primitive { width: BitWidth::W64, sign: Signedness::Signed, dtype: Datatype::Float });
    v
}

proof fn lemma_legal_name(s: Seq<char>)
    requires
        forall|i: int| 0 <= i < s.len() ==> legal_typename_char(#[trigger] s[i]),
    ensures
        first_illegal(s) is None,
    decreases s.len(),
{
    if s.len() > 0 {
        assert(legal_typename_char(s[0]));
        assert forall|i: int| 0 <= i < s.drop_first().len() implies legal_typename_char(
            #[trigger] s.drop_first()[i],
        ) by {
            assert(s.drop_first()[i] == s[i + 1]);
        }
        lemma_legal_name(s.drop_first());
    }
}

/// The name of builtin `k`.
fn builtin_name_exec(k: usize, prims: &Vec<Primitive>, at: &SourceLocation) -> (r: TypeName)
    requires
        k < 11,
        prims@.len() == 10,
        forall|q: int| 0 <= q < 10 ==> #[trigger] prims@[q] == builtin_primitive(q),
    ensures
        r@ == builtin_name(k as int),
{
    let s = if k < 10 {
        prims[k].to_string()
    } else {
        "void".to_string()
    };
    proof {
        reveal_strlit("u");
        reveal_strlit("i");
        reveal_strlit("f");
        reveal_strlit("8");
        reveal_strlit("16");
        reveal_strlit("32");
        reveal_strlit("64");
        reveal_strlit("void");
        assert(s@ == builtin_name(k as int));
        lemma_legal_name(s@);
    }
    match TypeName::from_chars(at.clone(), &crate::text::chars_of(s.as_str())) {
        Ok(t) => t,
        Err(_) => vstd::pervasive::unreached(),
    }
}

} // verus!

verus! {

/// Definitions whose identifiers are their positions have distinct identifiers, and each
/// position below the length is defined.
proof fn lemma_positional_ids(defs: Seq<(TypeID, TypeModel)>)
    requires
        defs.len() <= u32::MAX as int + 1,
        forall|j: int| 0 <= j < defs.len() ==> (#[trigger] defs[j]).0 == TypeID(j as u32),
    ensures
        distinct_ids(defs),
        forall|d: TypeID| d.0 < defs.len() ==> #[trigger] has_id(defs, d),
{
    assert forall|d: TypeID| d.0 < defs.len() implies #[trigger] has_id(defs, d) by {
        lemma_def_index(defs, d);
        assert(defs[d.0 as int].0 == d);
    }
}

/// Compiles a parsed module into a checked world: builtins get identifiers 0 to 10, the
/// declarations the following ones in order.
pub fn compile(module: Module) -> (r: Result<World, CompileError>)
    requires
        module@.definitions.len() <= u32::MAX - 11,
    ensures
        compile_result(r, module@),
{
    let ghost ds = module@.definitions;
    let n = module.definitions.len();
    let ghost big = table_of(ds, n as int);
    let mut allocator = TypeIDAllocator::new();
    let builtin_at = SourceLocation::new(
        SourceCode(Arc::new("builtin".to_string())),
        Position { line: 0, column: 0 },
    );
    let prims = builtin_primitives();
    let mut state = CompileState { name_to_id: Vec::new() };
    let mut defs: Vec<(TypeID, Type)> = Vec::new();
    let mut k: usize = 0;
    assert(state@ =~= table_of(ds, 0).take(0));
    assert(defs_model(defs@) =~= builtin_defs().take(0));
    while k < 11
        invariant
            k <= 11,
            allocator.next_id() == k,
            builtin_at@ == builtin_loc(),
            prims@.len() == 10,
            forall|q: int| 0 <= q < 10 ==> #[trigger] prims@[q] == builtin_primitive(q),
            state@ == table_of(ds, 0).take(k as int),
            defs_model(defs@) == builtin_defs().take(k as int),
        decreases 11 - k,
    {
        let name = builtin_name_exec(k, &prims, &builtin_at);
        let id = allocator.next();
        let kind = if k < 10 {
            TypeKind::Primitive(prims[k])
        } else {
            TypeKind::Void
        };
        let ghost t0 = state@;
        let ghost d0 = defs_model(defs@);
        state.name_to_id.push((name.clone(), id));
        let def = (id, Type { ident: name, defined_at: builtin_at.clone(), kind });
        defs.push(def);
        proof {
            assert(state@ =~= t0.push((name@, id)));
            assert(defs_model(defs@) =~= d0.push((id, def.1@)));
        }
        k = k + 1;
        proof {
            assert(table_of(ds, 0).take(k as int) =~= t0.push((name@, id)));
            assert(builtin_defs().take(k as int) =~= d0.push((id, def.1@)));
        }
    }
    assert(state@ =~= table_of(ds, 0));
    assert(defs_model(defs@) =~= builtin_defs());
    let mut i: usize = 0;
    while i < n
        invariant
            n == ds.len(),
            ds == module@.definitions,
            n <= u32::MAX - 11,
            i <= n,
            allocator.next_id() == 11 + i,
            builtin_at@ == builtin_loc(),
            state@ == table_of(ds, i as int),
            defs_model(defs@) == builtin_defs(),
            name_clash(ds, 0) == name_clash(ds, i as int),
            forall|q: int| 0 <= q < i ==> !#[trigger] clashes(ds, q),
        decreases n - i,
    {
        let def = &module.definitions[i];
        assert(ds[i as int] == def@);
        let ghost t = state@;
        proof {
            lemma_resolve_from(t, def.ident@, 0);
        }
        if let Some(existing) = state.get(&def.ident) {
            let ghost j = choose|j: int|
                0 <= j < t.len() && t[j].0 == def.ident@ && t[j].1 == existing;
            assert(clashes(ds, i as int)) by {
                if j >= 11 {
                    assert(ds[j - 11].ident == ds[i as int].ident);
                }
            }
            assert(name_clash(ds, 0) == Some(i as int));
            let previous = if existing.0 < 11 {
                assert(is_builtin_name(ds[i as int].ident));
                builtin_at.clone()
            } else {
                let q: usize = (existing.0 - 11) as usize;
                assert(j == q + 11);
                assert(ds[q as int].ident == ds[i as int].ident);
                assert(!is_builtin_name(ds[i as int].ident)) by {
                    assert(!clashes(ds, q as int));
                }
                let ghost c = choose|c: int| 0 <= c < i && ds[c].ident == ds[i as int].ident;
                assert(c == q) by {
                    if c < q {
                        assert(clashes(ds, q as int));
                    } else if q < c {
                        assert(clashes(ds, c));
                    }
                }
                module.definitions[q].defined_at.clone()
            };
            return Err(
                CompileError::DuplicateTypeName {
                    name: def.ident.clone(),
                    defined_at: def.defined_at.clone(),
                    previous,
                },
            );
        }
        assert(!clashes(ds, i as int)) by {
            if is_builtin_name(ds[i as int].ident) {
                let b = choose|b: int| 0 <= b < 11 && builtin_name(b) == ds[i as int].ident;
                assert(t[b].0 == ds[i as int].ident);
            }
            if exists|j: int| 0 <= j < i && ds[j].ident == ds[i as int].ident {
                let j = choose|j: int| 0 <= j < i && ds[j].ident == ds[i as int].ident;
                assert(t[11 + j].0 == ds[i as int].ident);
            }
        }
        let id = allocator.next();
        let ghost t0 = state@;
        state.name_to_id.push((def.ident.clone(), id));
        assert(state@ =~= t0.push((def.ident@, id)));
        i = i + 1;
        assert(table_of(ds, i as int) =~= t0.push((def.ident@, id)));
    }
    assert(name_clash(ds, i as int) is None);
    assert(names_distinct(ds)) by {
        assert forall|p: int, q: int| 0 <= p < q < ds.len() implies ds[p].ident != ds[q].ident by {
            assert(!clashes(ds, q));
        }
    }
    assert(indexed(big));
    let ghost base = defs_model(defs@);
    let mut i: usize = 0;
    assert(base.skip(11) =~= Seq::<(TypeID, TypeModel)>::empty());
    while i < n
        invariant
            n == ds.len(),
            ds == module@.definitions,
            names_distinct(ds),
            n <= u32::MAX - 11,
            forall|q: int| 0 <= q < n ==> !#[trigger] clashes(ds, q),
            name_clash(ds, 0) is None,
            big == table_of(ds, n as int),
            state@ == big,
            indexed(big),
            base == builtin_defs(),
            i <= n,
            defs@.len() == 11 + i,
            defs_model(defs@) == base + defs_model(defs@).skip(11),
            convert_all(big, ds, 0, Seq::empty()) == convert_all(
                big,
                ds,
                i as int,
                defs_model(defs@).skip(11),
            ),
            forall|j: int| 0 <= j < defs@.len() ==> (#[trigger] defs_model(defs@)[j]).0 == TypeID(j as u32),
            forall|j: int, d: TypeID|
                0 <= j < defs@.len() && #[trigger] refs(defs_model(defs@)[j].1.kind).contains(d) ==> d.0
                    < 11 + n,
        decreases n - i,
    {
        let def = &module.definitions[i];
        assert(ds[i as int] == def@);
        proof {
            assert(big[11 + i].0 == def.ident@);
            assert forall|q: int| 0 <= q < 11 + i implies big[q].0 != def.ident@ by {
                if q < 11 {
                    assert(!clashes(ds, i as int));
                    assert(big[q].0 == builtin_name(q));
                } else {
                    assert(ds[q - 11].ident != ds[i as int].ident);
                }
            }
            lemma_resolve_first(big, def.ident@, 11 + i, 0);
            lemma_convert_refs(big, def.ident@, def.kind@);
        }
        let converted = match convert(&state, def) {
            Ok(c) => c,
            Err(e) => {
                return Err(e);
            },
        };
        let ghost d0 = defs_model(defs@);
        let ghost cm = (converted.0, converted.1@);
        defs.push(converted);
        proof {
            assert(defs_model(defs@) =~= d0.push(cm));
            assert(defs_model(defs@).skip(11) =~= d0.skip(11).push(cm));
            assert(defs_model(defs@) =~= base + defs_model(defs@).skip(11));
        }
        i = i + 1;
    }
    let ghost conv = defs_model(defs@).skip(11);
    assert(convert_all(big, ds, n as int, conv) == Ok::<Seq<(TypeID, TypeModel)>, ErrorModel>(conv));
    proof {
        lemma_positional_ids(defs_model(defs@));
        assert forall|j: int, d: TypeID|
            0 <= j < defs_model(defs@).len() && #[trigger] refs(defs_model(defs@)[j].1.kind).contains(
                d,
            ) implies has_id(defs_model(defs@), d) by {
            assert(d.0 < defs_model(defs@).len());
        }
    }
    let sorted = match toposort(&defs) {
        Ok(s) => s,
        Err(e) => {
            return Err(e);
        },
    };
    verify(World::new(defs, sorted, module.name))
}

} // verus!
