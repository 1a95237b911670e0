//! Linking a root module with the modules it imports: the definitions of all loaded
//! modules must have distinct names, the root's imports must name types of the module
//! they point to, and every type the root uses must be its own, imported, needed by an
//! import, or builtin. The result keeps the root's definitions and those the imports
//! reach.
use vstd::prelude::*;

use super::ast::{
    BitfldMemberModel, ImportModel, KindModel, Module, ModuleModel, StructMemberModel, Type,
    TypeModel, TypeName, VariantMemberModel,
};
use super::source::{describe_spec, LocationModel, SourceLocation};
use crate::text::{append_str, concat};

verus! {

// ---------------------------------------------------------------------------
// Model
// ---------------------------------------------------------------------------
/// The names a declaration refers to, in order.
pub open spec fn deps_spec(k: KindModel) -> Seq<Seq<char>> {
    match k {
        KindModel::Alias { other } => seq![other],
        KindModel::Pack { members } => members.map_values(|m: StructMemberModel| m.ty),
        KindModel::Enum { ty, .. } => seq![ty],
        KindModel::Bitfld { ty, members } => seq![ty] + members.map_values(|m: BitfldMemberModel| m.ty),
        KindModel::Variant { ty, members } => seq![ty] + members.map_values(|m: VariantMemberModel| m.ty),
        KindModel::Sequence { members } => members.map_values(|m: StructMemberModel| m.ty),
        KindModel::DynamicArray { size_type, value_type } => seq![size_type, value_type],
        KindModel::FixedArray { value_type, .. } => seq![value_type],
        KindModel::Const { ty, .. } => seq![ty],
    }
}

/// The names of the builtin types.
pub open spec fn builtin_type_name(n: Seq<char>) -> bool {
    n == "u8"@ || n == "u16"@ || n == "u32"@ || n == "u64"@ || n == "i8"@ || n == "i16"@ || n == "i32"@
        || n == "i64"@ || n == "f32"@ || n == "f64"@ || n == "void"@
}

/// The loaded modules with the root moved to the front.
pub open spec fn root_first(ms: Seq<ModuleModel>, root: int) -> Seq<ModuleModel> {
    ms.remove(root).insert(0, ms[root])
}

/// Where module `i` of the loaded modules stands once the root is in front.
pub open spec fn moved_index(root: int, i: int) -> int {
    if i == root {
        0
    } else if i < root {
        i + 1
    } else {
        i
    }
}

/// The definitions of the first `k` modules, in order, each with its module's index.
pub open spec fn flat_of(ms: Seq<ModuleModel>, k: int) -> Seq<(int, TypeModel)>
    decreases k,
{
    if k <= 0 || k > ms.len() {
        Seq::empty()
    } else {
        flat_of(ms, k - 1) + ms[k - 1].definitions.map_values(|t: TypeModel| (k - 1, t))
    }
}

pub open spec fn flat(ms: Seq<ModuleModel>) -> Seq<(int, TypeModel)> {
    flat_of(ms, ms.len() as int)
}

/// The first definition, from `i` on, named `n`.
pub open spec fn first_named(f: Seq<(int, TypeModel)>, n: Seq<char>, i: int) -> Option<int>
    decreases f.len() - i,
{
    if i < 0 || i >= f.len() {
        None
    } else if f[i].1.ident == n {
        Some(i)
    } else {
        first_named(f, n, i + 1)
    }
}

/// The first definition, from `j` on, whose name an earlier definition already has.
pub open spec fn first_dup(f: Seq<(int, TypeModel)>, j: int) -> Option<int>
    decreases f.len() - j,
{
    if j < 0 || j >= f.len() {
        None
    } else if first_named(f, f[j].1.ident, 0) != Some(j) {
        Some(j)
    } else {
        first_dup(f, j + 1)
    }
}

/// The module that defines `n`.
pub open spec fn owner(f: Seq<(int, TypeModel)>, n: Seq<char>) -> Option<int> {
    match first_named(f, n, 0) {
        Some(i) => Some(f[i].0),
        None => None,
    }
}

/// Why linking failed.
pub enum LinkErrorModel {
    DuplicateTypeName { name: Seq<char>, defined_at: LocationModel, previous: LocationModel },
    UnresolvedImport { path: Seq<char>, at: LocationModel },
    ForeignImport { ty: Seq<char>, at: LocationModel },
    MissingImport { ty: Seq<char>, at: LocationModel },
    NotImported { ty: Seq<char>, user: Seq<char>, at: LocationModel },
}

/// The names chosen by the first `k` names of an import of module `m`, after `acc`.
pub open spec fn named_imports(
    f: Seq<(int, TypeModel)>,
    m: int,
    imp: ImportModel,
    acc: Set<Seq<char>>,
    k: int,
) -> Result<Set<Seq<char>>, LinkErrorModel>
    decreases k,
{
    if k <= 0 || k > imp.types.len() {
        Ok(acc)
    } else {
        match named_imports(f, m, imp, acc, k - 1) {
            Err(e) => Err(e),
            Ok(s) => {
                let ty = imp.types[k - 1];
                match owner(f, ty) {
                    Some(o) => if o == m {
                        Ok(s.insert(ty))
                    } else {
                        Err(LinkErrorModel::ForeignImport { ty, at: imp.defined_at })
                    },
                    None => Err(LinkErrorModel::MissingImport { ty, at: imp.defined_at }),
                }
            },
        }
    }
}

/// The names of the definitions of `m`.
pub open spec fn def_names(m: ModuleModel) -> Set<Seq<char>> {
    m.definitions.map_values(|t: TypeModel| t.ident).to_set()
}

/// The names chosen by the first `k` imports of the root, which point to `targets` (as
/// indices of the loaded modules before the root moved).
pub open spec fn chosen(mv: Seq<ModuleModel>, root: int, targets: Seq<Option<usize>>, k: int) -> Result<
    Set<Seq<char>>,
    LinkErrorModel,
>
    decreases k,
{
    if k <= 0 || k > mv[0].imports.len() {
        Ok(Set::empty())
    } else {
        match chosen(mv, root, targets, k - 1) {
            Err(e) => Err(e),
            Ok(s) => {
                let imp = mv[0].imports[k - 1];
                match targets[k - 1] {
                    None => Err(LinkErrorModel::UnresolvedImport { path: imp.path, at: imp.defined_at }),
                    Some(t) => {
                        let m = moved_index(root, t as int);
                        if imp.import_all {
                            Ok(s + def_names(mv[m]))
                        } else {
                            named_imports(flat(mv), m, imp, s, imp.types.len() as int)
                        }
                    },
                }
            },
        }
    }
}

/// Every defined name in `s` has its dependencies in `s`.
pub open spec fn deps_closed(f: Seq<(int, TypeModel)>, s: Set<Seq<char>>) -> bool {
    forall|n: Seq<char>, i: int|
        #![trigger s.contains(n), first_named(f, n, 0), f[i]]
        s.contains(n) && first_named(f, n, 0) == Some(i) ==> deps_spec(f[i].1.kind).to_set().subset_of(s)
}

/// `c` is the least set holding `seeds` that is closed under dependencies.
pub open spec fn least_closure(f: Seq<(int, TypeModel)>, seeds: Set<Seq<char>>, c: Set<Seq<char>>) -> bool {
    &&& seeds.subset_of(c)
    &&& deps_closed(f, c)
    &&& forall|t: Set<Seq<char>>| #[trigger] deps_closed(f, t) && seeds.subset_of(t) ==> c.subset_of(t)
}

/// The names that the seeds need, themselves included.
pub open spec fn closure(f: Seq<(int, TypeModel)>, seeds: Set<Seq<char>>) -> Set<Seq<char>> {
    choose|c: Set<Seq<char>>| least_closure(f, seeds, c)
}

/// The first dependency, from `k` on, of a root definition `t` that is not in `ok` and
/// not builtin.
pub open spec fn first_unknown(deps: Seq<Seq<char>>, ok: Set<Seq<char>>, k: int) -> Option<int>
    decreases deps.len() - k,
{
    if k < 0 || k >= deps.len() {
        None
    } else if !ok.contains(deps[k]) && !builtin_type_name(deps[k]) {
        Some(k)
    } else {
        first_unknown(deps, ok, k + 1)
    }
}

/// The first root definition, from `i` on, that uses a type it may not use.
pub open spec fn first_unimported(ds: Seq<TypeModel>, ok: Set<Seq<char>>, i: int) -> Option<LinkErrorModel>
    decreases ds.len() - i,
{
    if i < 0 || i >= ds.len() {
        None
    } else {
        match first_unknown(deps_spec(ds[i].kind), ok, 0) {
            Some(k) => Some(
                LinkErrorModel::NotImported {
                    ty: deps_spec(ds[i].kind)[k],
                    user: ds[i].ident,
                    at: ds[i].defined_at,
                },
            ),
            None => first_unimported(ds, ok, i + 1),
        }
    }
}

/// The definitions of the first `k` modules whose names are in `allowed`, in order.
pub open spec fn kept_of(ms: Seq<ModuleModel>, allowed: Set<Seq<char>>, k: int) -> Seq<TypeModel>
    decreases k,
{
    if k <= 0 || k > ms.len() {
        Seq::empty()
    } else {
        kept_of(ms, allowed, k - 1) + ms[k - 1].definitions.filter(|t: TypeModel| allowed.contains(t.ident))
    }
}

/// What linking the loaded modules `ms` (the root at `root`, whose imports point to
/// `targets`) gives.
pub open spec fn link_spec(ms: Seq<ModuleModel>, root: int, targets: Seq<Option<usize>>) -> Result<
    ModuleModel,
    LinkErrorModel,
> {
    let mv = root_first(ms, root);
    let f = flat(mv);
    match first_dup(f, 0) {
        Some(j) => Err(
            LinkErrorModel::DuplicateTypeName {
                name: f[j].1.ident,
                defined_at: f[j].1.defined_at,
                previous: f[first_named(f, f[j].1.ident, 0)->Some_0].1.defined_at,
            },
        ),
        None => match chosen(mv, root, targets, mv[0].imports.len() as int) {
            Err(e) => Err(e),
            Ok(seeds) => {
                let allowed = def_names(mv[0]) + closure(f, seeds);
                match first_unimported(mv[0].definitions, allowed, 0) {
                    Some(e) => Err(e),
                    None => Ok(
                        ModuleModel {
                            name: mv[0].name,
                            source: mv[0].source,
                            imports: mv[0].imports,
                            definitions: kept_of(mv, allowed, mv.len() as int),
                        },
                    ),
                }
            },
        },
    }
}


// ---------------------------------------------------------------------------
// Errors
// ---------------------------------------------------------------------------
/// Why the loaded modules could not be linked.
#[derive(Debug)]
pub enum LinkError {
    /// Two loaded definitions share a name.
    DuplicateTypeName { name: TypeName, defined_at: SourceLocation, previous: SourceLocation },
    /// An import of the root points to no loaded module.
    UnresolvedImport { path: String, at: SourceLocation },
    /// An import names a type that another module defines.
    ForeignImport { ty: TypeName, at: SourceLocation },
    /// An import names a type that no module defines.
    MissingImport { ty: TypeName, at: SourceLocation },
    /// A root definition uses a type that is neither its own, imported, nor builtin.
    NotImported { ty: TypeName, user: TypeName, at: SourceLocation },
}

impl View for LinkError {
    type V = LinkErrorModel;

    open spec fn view(&self) -> LinkErrorModel {
        match self {
            LinkError::DuplicateTypeName { name, defined_at, previous } => LinkErrorModel::DuplicateTypeName {
                name: name@,
                defined_at: defined_at@,
                previous: previous@,
            },
            LinkError::UnresolvedImport { path, at } => LinkErrorModel::UnresolvedImport { path: path@, at: at@ },
            LinkError::ForeignImport { ty, at } => LinkErrorModel::ForeignImport { ty: ty@, at: at@ },
            LinkError::MissingImport { ty, at } => LinkErrorModel::MissingImport { ty: ty@, at: at@ },
            LinkError::NotImported { ty, user, at } => LinkErrorModel::NotImported {
                ty: ty@,
                user: user@,
                at: at@,
            },
        }
    }
}

pub open spec fn link_message_spec(e: LinkErrorModel) -> Seq<char> {
    match e {
        LinkErrorModel::DuplicateTypeName { name, defined_at, previous } => "duplicate type name "@ + name
            + " defined at "@ + describe_spec(defined_at) + " (previously defined at "@ + describe_spec(
            previous,
        ) + ")"@,
        LinkErrorModel::UnresolvedImport { path, at } => "import "@ + path + " at "@ + describe_spec(at)
            + " could not be resolved"@,
        LinkErrorModel::ForeignImport { ty, at } => "imported type "@ + ty + " at "@ + describe_spec(at)
            + " is defined in a different module"@,
        LinkErrorModel::MissingImport { ty, at } => "imported type "@ + ty + " at "@ + describe_spec(at)
            + " does not exist"@,
        LinkErrorModel::NotImported { ty, user, at } => "type "@ + ty + " used by "@ + user + " at "@
            + describe_spec(at) + " must be imported"@,
    }
}

impl LinkError {
    /// The error as text.
    pub fn message(&self) -> (r: String)
        ensures
            r@ == link_message_spec(self@),
    {
        match self {
            LinkError::DuplicateTypeName { name, defined_at, previous } => {
                let mut r = concat("duplicate type name ", name.as_str());
                append_str(&mut r, " defined at ");
                append_str(&mut r, defined_at.describe().as_str());
                append_str(&mut r, " (previously defined at ");
                append_str(&mut r, previous.describe().as_str());
                append_str(&mut r, ")");
                r
            },
            LinkError::UnresolvedImport { path, at } => {
                let mut r = concat("import ", path.as_str());
                append_str(&mut r, " at ");
                append_str(&mut r, at.describe().as_str());
                append_str(&mut r, " could not be resolved");
                r
            },
            LinkError::ForeignImport { ty, at } => {
                let mut r = concat("imported type ", ty.as_str());
                append_str(&mut r, " at ");
                append_str(&mut r, at.describe().as_str());
                append_str(&mut r, " is defined in a different module");
                r
            },
            LinkError::MissingImport { ty, at } => {
                let mut r = concat("imported type ", ty.as_str());
                append_str(&mut r, " at ");
                append_str(&mut r, at.describe().as_str());
                append_str(&mut r, " does not exist");
                r
            },
            LinkError::NotImported { ty, user, at } => {
                let mut r = concat("type ", ty.as_str());
                append_str(&mut r, " used by ");
                append_str(&mut r, user.as_str());
                append_str(&mut r, " at ");
                append_str(&mut r, at.describe().as_str());
                append_str(&mut r, " must be imported");
                r
            },
        }
    }
}

// ---------------------------------------------------------------------------
// Helpers
// ---------------------------------------------------------------------------
pub open spec fn modules_model(v: Seq<Module>) -> Seq<ModuleModel> {
    v.map_values(|m: Module| m@)
}

pub open spec fn names_model(v: Seq<TypeName>) -> Seq<Seq<char>> {
    v.map_values(|t: TypeName| t@)
}

pub open spec fn refs_model(v: Seq<&TypeName>) -> Seq<Seq<char>> {
    v.map_values(|t: &TypeName| t@)
}

pub open spec fn flat_model(v: Seq<(usize, &Type)>) -> Seq<(int, TypeModel)> {
    v.map_values(|p: (usize, &Type)| (p.0 as int, p.1@))
}

/// The names `ty` refers to, in order.
fn deps_of(ty: &Type) -> (r: Vec<&TypeName>)
    ensures
        refs_model(r@) == deps_spec(ty@.kind),
{
    let mut r: Vec<&TypeName> = Vec::new();
    match &ty.kind {
        super::ast::TypeKind::Alias(a) => {
            r.push(&a.other);
        },
        super::ast::TypeKind::Enum(e) => {
            r.push(&e.ty);
        },
        super::ast::TypeKind::DynamicArray(d) => {
            r.push(&d.size_type);
            r.push(&d.value_type);
        },
        super::ast::TypeKind::FixedArray(f) => {
            r.push(&f.value_type);
        },
        super::ast::TypeKind::Const(c) => {
            r.push(&c.ty);
        },
        super::ast::TypeKind::Pack(p) => {
            push_struct_tys(&mut r, &p.members);
        },
        super::ast::TypeKind::Sequence(p) => {
            push_struct_tys(&mut r, &p.members);
        },
        super::ast::TypeKind::Bitfld(b) => {
            r.push(&b.ty);
            let mut i: usize = 0;
            while i < b.members.len()
                invariant
                    i <= b.members@.len(),
                    r@.len() == i + 1,
                    r@[0]@ == b.ty@,
                    forall|k: int| 0 <= k < i ==> (#[trigger] r@[k + 1])@ == b.members@[k].ty@,
                decreases b.members.len() - i,
            {
                r.push(&b.members[i].ty);
                i = i + 1;
            }
            assert(refs_model(r@) =~= seq![b.ty@] + super::ast::bitfld_members_model(b.members@).map_values(
                |m: BitfldMemberModel| m.ty,
            )) by {
                assert forall|k: int| 1 <= k < r@.len() implies refs_model(r@)[k] == b.members@[k - 1].ty@ by {
                    assert(r@[(k - 1) + 1] == r@[k]);
                }
            }
        },
        super::ast::TypeKind::Variant(v) => {
            r.push(&v.ty);
            let mut i: usize = 0;
            while i < v.members.len()
                invariant
                    i <= v.members@.len(),
                    r@.len() == i + 1,
                    r@[0]@ == v.ty@,
                    forall|k: int| 0 <= k < i ==> (#[trigger] r@[k + 1])@ == v.members@[k].ty@,
                decreases v.members.len() - i,
            {
                r.push(&v.members[i].ty);
                i = i + 1;
            }
            assert(refs_model(r@) =~= seq![v.ty@] + super::ast::variant_members_model(v.members@).map_values(
                |m: VariantMemberModel| m.ty,
            )) by {
                assert forall|k: int| 1 <= k < r@.len() implies refs_model(r@)[k] == v.members@[k - 1].ty@ by {
                    assert(r@[(k - 1) + 1] == r@[k]);
                }
            }
        },
    }
    proof {
        assert(refs_model(r@) =~= deps_spec(ty@.kind));
    }
    r
}

/// Appends the member types of a pack or sequence.
fn push_struct_tys<'a>(r: &mut Vec<&'a TypeName>, ms: &'a Vec<super::ast::StructMember>)
    requires
        old(r)@.len() == 0,
    ensures
        refs_model(final(r)@) == super::ast::struct_members_model(ms@).map_values(|m: StructMemberModel| m.ty),
{
    let mut i: usize = 0;
    while i < ms.len()
        invariant
            i <= ms@.len(),
            r@.len() == i,
            forall|k: int| 0 <= k < i ==> (#[trigger] r@[k])@ == ms@[k].ty@,
        decreases ms.len() - i,
    {
        r.push(&ms[i].ty);
        i = i + 1;
    }
    assert(refs_model(r@) =~= super::ast::struct_members_model(ms@).map_values(|m: StructMemberModel| m.ty));
}

/// Whether `n` names a builtin type.
fn is_builtin(n: &TypeName) -> (b: bool)
    ensures
        b == builtin_type_name(n@),
{
    let s = n.as_str();
    crate::text::str_eq(s, "u8") || crate::text::str_eq(s, "u16") || crate::text::str_eq(s, "u32")
        || crate::text::str_eq(s, "u64") || crate::text::str_eq(s, "i8") || crate::text::str_eq(s, "i16")
        || crate::text::str_eq(s, "i32") || crate::text::str_eq(s, "i64") || crate::text::str_eq(s, "f32")
        || crate::text::str_eq(s, "f64") || crate::text::str_eq(s, "void")
}

/// The definitions of all modules, in order, each with its module's index.
fn flatten(mods: &Vec<Module>) -> (r: Vec<(usize, &Type)>)
    ensures
        flat_model(r@) == flat(modules_model(mods@)),
{
    let ghost ms = modules_model(mods@);
    let mut r: Vec<(usize, &Type)> = Vec::new();
    let mut i: usize = 0;
    while i < mods.len()
        invariant
            ms == modules_model(mods@),
            i <= mods@.len(),
            flat_model(r@) == flat_of(ms, i as int),
        decreases mods.len() - i,
    {
        let defs = &mods[i].definitions;
        let ghost base = flat_of(ms, i as int);
        let ghost n0 = r@.len();
        let mut j: usize = 0;
        while j < defs.len()
            invariant
                ms == modules_model(mods@),
                i < mods@.len(),
                defs == &mods@[i as int].definitions,
                j <= defs@.len(),
                n0 == base.len(),
                r@.len() == n0 + j,
                forall|k: int| 0 <= k < n0 ==> flat_model(r@)[k] == base[k],
                forall|k: int| 0 <= k < j ==> (#[trigger] r@[n0 + k]).0 == i && r@[n0 + k].1@ == defs@[k]@,
            decreases defs.len() - j,
        {
            r.push((i, &defs[j]));
            j = j + 1;
        }
        assert(flat_model(r@) =~= flat_of(ms, i + 1)) by {
            assert forall|k: int| n0 <= k < r@.len() implies flat_model(r@)[k] == flat_of(ms, i + 1)[k] by {
                assert(r@[n0 + (k - n0)] == r@[k]);
            }
        }
        i = i + 1;
    }
    r
}

/// The first definition of `all`, from `i` on, named `n`.
fn find_named(all: &Vec<(usize, &Type)>, n: &TypeName) -> (r: Option<usize>)
    ensures
        match (r, first_named(flat_model(all@), n@, 0)) {
            (Some(a), Some(b)) => a == b,
            (None, None) => true,
            _ => false,
        },
        r matches Some(a) ==> a < all@.len() && all@[a as int].1@.ident == n@,
{
    let ghost f = flat_model(all@);
    let mut i: usize = 0;
    while i < all.len()
        invariant
            f == flat_model(all@),
            i <= all@.len(),
            first_named(f, n@, 0) == first_named(f, n@, i as int),
        decreases all.len() - i,
    {
        if all[i].1.ident.same(n) {
            return Some(i);
        }
        i = i + 1;
    }
    None
}


pub open spec fn name_set(v: Seq<TypeName>) -> Set<Seq<char>> {
    names_model(v).to_set()
}

proof fn lemma_name_set_push(v: Seq<TypeName>, x: TypeName)
    ensures
        name_set(v.push(x)) == name_set(v).insert(x@),
{
    assert(names_model(v.push(x)) =~= names_model(v).push(x@));
    assert(names_model(v).push(x@).to_set() =~= names_model(v).to_set().insert(x@)) by {
        assert forall|n: Seq<char>| #[trigger] names_model(v).push(x@).to_set().contains(n) <==> names_model(v).to_set().insert(x@).contains(n) by {
            if names_model(v).push(x@).contains(n) {
                let k = choose|k: int| 0 <= k < names_model(v).push(x@).len() && names_model(v).push(x@)[k] == n;
                if k < names_model(v).len() {
                    assert(names_model(v)[k] == n);
                }
            }
            if names_model(v).contains(n) {
                let k = choose|k: int| 0 <= k < names_model(v).len() && names_model(v)[k] == n;
                assert(names_model(v).push(x@)[k] == n);
            }
            if n == x@ {
                assert(names_model(v).push(x@)[names_model(v).len() as int] == n);
            }
        }
    }
}

/// Adds the names an import of module `m` lists, in order.
fn choose_named(all: &Vec<(usize, &Type)>, m: usize, imp: &super::ast::Import, acc: &mut Vec<TypeName>) -> (r: Result<
    (),
    LinkError,
>)
    ensures
        match (r, named_imports(flat_model(all@), m as int, imp@, name_set(old(acc)@), imp@.types.len() as int)) {
            (Ok(_), Ok(s)) => name_set(final(acc)@) == s,
            (Err(a), Err(b)) => a@ == b,
            _ => false,
        },
{
    let ghost f = flat_model(all@);
    let ghost s0 = name_set(acc@);
    let mut k: usize = 0;
    while k < imp.types.len()
        invariant
            f == flat_model(all@),
            s0 == name_set(old(acc)@),
            k <= imp@.types.len(),
            named_imports(f, m as int, imp@, s0, k as int) == Ok::<Set<Seq<char>>, LinkErrorModel>(name_set(acc@)),
        decreases imp.types.len() - k,
    {
        let ty = &imp.types[k];
        assert(imp@.types[k as int] == ty@);
        match find_named(all, ty) {
            Some(i) => {
                if all[i].0 == m {
                    let c = ty.clone();
                    proof {
                        lemma_name_set_push(acc@, c);
                    }
                    acc.push(c);
                } else {
                    proof {
                        lemma_named_err(f, m as int, imp@, s0, k as int + 1, imp@.types.len() as int);
                    }
                    return Err(LinkError::ForeignImport { ty: ty.clone(), at: imp.defined_at.clone() });
                }
            },
            None => {
                proof {
                    lemma_named_err(f, m as int, imp@, s0, k as int + 1, imp@.types.len() as int);
                }
                return Err(LinkError::MissingImport { ty: ty.clone(), at: imp.defined_at.clone() });
            },
        }
        k = k + 1;
    }
    Ok(())
}

proof fn lemma_named_err(
    f: Seq<(int, TypeModel)>,
    m: int,
    imp: ImportModel,
    acc: Set<Seq<char>>,
    k: int,
    n: int,
)
    requires
        0 <= k <= n <= imp.types.len(),
        named_imports(f, m, imp, acc, k) is Err,
    ensures
        named_imports(f, m, imp, acc, n) == named_imports(f, m, imp, acc, k),
    decreases n - k,
{
    if n > k {
        lemma_named_err(f, m, imp, acc, k, n - 1);
    }
}

proof fn lemma_chosen_err(mv: Seq<ModuleModel>, root: int, targets: Seq<Option<usize>>, k: int, n: int)
    requires
        0 <= k <= n <= mv[0].imports.len(),
        chosen(mv, root, targets, k) is Err,
    ensures
        chosen(mv, root, targets, n) == chosen(mv, root, targets, k),
    decreases n - k,
{
    if n > k {
        lemma_chosen_err(mv, root, targets, k, n - 1);
    }
}

/// The names the root's imports choose.
fn choose_imports(all: &Vec<(usize, &Type)>, mods: &Vec<Module>, root: usize, targets: &Vec<Option<usize>>) -> (r: Result<
    Vec<TypeName>,
    LinkError,
>)
    requires
        mods@.len() > 0,
        flat_model(all@) == flat(modules_model(mods@)),
        targets@.len() == mods@[0].imports@.len(),
        root < mods@.len(),
        forall|k: int| 0 <= k < targets@.len() ==> (#[trigger] targets@[k] matches Some(t) ==> t < mods@.len()),
    ensures
        match (r, chosen(modules_model(mods@), root as int, targets@, mods@[0].imports@.len() as int)) {
            (Ok(v), Ok(s)) => name_set(v@) == s,
            (Err(a), Err(b)) => a@ == b,
            _ => false,
        },
{
    let ghost mv = modules_model(mods@);
    let imps = &mods[0].imports;
    let mut acc: Vec<TypeName> = Vec::new();
    proof {
        assert(name_set(acc@) =~= Set::empty());
    }
    let mut k: usize = 0;
    while k < imps.len()
        invariant
            mv == modules_model(mods@),
            mods@.len() > 0,
            flat_model(all@) == flat(mv),
            imps == &mods@[0].imports,
            targets@.len() == imps@.len(),
            root < mods@.len(),
            forall|q: int| 0 <= q < targets@.len() ==> (#[trigger] targets@[q] matches Some(t) ==> t < mods@.len()),
            k <= imps@.len(),
            chosen(mv, root as int, targets@, k as int) == Ok::<Set<Seq<char>>, LinkErrorModel>(name_set(acc@)),
        decreases imps.len() - k,
    {
        let imp = &imps[k];
        assert(mv[0].imports[k as int] == imp@);
        match targets[k] {
            None => {
                proof {
                    lemma_chosen_err(mv, root as int, targets@, k as int + 1, imps@.len() as int);
                }
                return Err(LinkError::UnresolvedImport { path: imp.path.clone(), at: imp.defined_at.clone() });
            },
            Some(t) => {
                assert(targets@[k as int] matches Some(x) ==> x < mods@.len());
                let m: usize = if t == root {
                    0
                } else if t < root {
                    t + 1
                } else {
                    t
                };
                if imp.import_all {
                    let defs = &mods[m].definitions;
                    let ghost s0 = name_set(acc@);
                    let mut j: usize = 0;
                    while j < defs.len()
                        invariant
                            defs == &mods@[m as int].definitions,
                            mv == modules_model(mods@),
                            m < mods@.len(),
                            j <= defs@.len(),
                            name_set(acc@) == s0 + defs@.take(j as int).map_values(|t: Type| t@.ident).to_set(),
                        decreases defs.len() - j,
                    {
                        let c = defs[j].ident.clone();
                        proof {
                            lemma_name_set_push(acc@, c);
                            assert(defs@.take(j as int + 1).map_values(|t: Type| t@.ident) =~= defs@.take(j as int).map_values(|t: Type| t@.ident).push(defs@[j as int].ident@));
                            lemma_seq_push_set(defs@.take(j as int).map_values(|t: Type| t@.ident), defs@[j as int].ident@);
                        }
                        acc.push(c);
                        j = j + 1;
                        proof {
                            assert(name_set(acc@) =~= s0 + defs@.take(j as int).map_values(|t: Type| t@.ident).to_set());
                        }
                    }
                    proof {
                        assert(defs@.take(j as int).map_values(|t: Type| t@.ident) =~= mv[m as int].definitions.map_values(|t: TypeModel| t.ident));
                    }
                } else {
                    match choose_named(all, m, imp, &mut acc) {
                        Ok(()) => {},
                        Err(e) => {
                            proof {
                                lemma_chosen_err(mv, root as int, targets@, k as int + 1, imps@.len() as int);
                            }
                            return Err(e);
                        },
                    }
                }
            },
        }
        k = k + 1;
    }
    Ok(acc)
}

proof fn lemma_seq_push_set(s: Seq<Seq<char>>, x: Seq<char>)
    ensures
        s.push(x).to_set() == s.to_set().insert(x),
{
    assert forall|n: Seq<char>| #[trigger] s.push(x).to_set().contains(n) <==> s.to_set().insert(x).contains(n) by {
        if s.push(x).contains(n) {
            let k = choose|k: int| 0 <= k < s.push(x).len() && s.push(x)[k] == n;
            if k < s.len() {
                assert(s[k] == n);
            }
        }
        if s.contains(n) {
            let k = choose|k: int| 0 <= k < s.len() && s[k] == n;
            assert(s.push(x)[k] == n);
        }
        if n == x {
            assert(s.push(x)[s.len() as int] == n);
        }
    }
    assert(s.push(x).to_set() =~= s.to_set().insert(x));
}


/// Every name the first `n` definitions refer to, in order.
pub open spec fn all_deps(f: Seq<(int, TypeModel)>, n: int) -> Seq<Seq<char>>
    decreases n,
{
    if n <= 0 || n > f.len() {
        Seq::empty()
    } else {
        all_deps(f, n - 1) + deps_spec(f[n - 1].1.kind)
    }
}

proof fn lemma_all_deps_contains(f: Seq<(int, TypeModel)>, n: int, p: int, k: int)
    requires
        0 <= p < n <= f.len(),
        0 <= k < deps_spec(f[p].1.kind).len(),
    ensures
        all_deps(f, n).contains(deps_spec(f[p].1.kind)[k]),
    decreases n,
{
    let x = deps_spec(f[p].1.kind)[k];
    if p == n - 1 {
        let a = all_deps(f, n - 1);
        assert(all_deps(f, n)[a.len() + k] == x);
    } else {
        lemma_all_deps_contains(f, n - 1, p, k);
        let a = all_deps(f, n - 1);
        let j = choose|j: int| 0 <= j < a.len() && #[trigger] a[j] == x;
        assert(all_deps(f, n)[j] == x);
    }
}

/// There is only one least closed set holding the seeds.
proof fn lemma_least_unique(f: Seq<(int, TypeModel)>, seeds: Set<Seq<char>>, c1: Set<Seq<char>>, c2: Set<Seq<char>>)
    requires
        least_closure(f, seeds, c1),
        least_closure(f, seeds, c2),
    ensures
        c1 == c2,
{
    assert(deps_closed(f, c2));
    assert(deps_closed(f, c1));
    assert(c1.subset_of(c2));
    assert(c2.subset_of(c1));
    assert(c1 =~= c2);
}

/// Whether `v` holds a name spelled like `n`.
fn contains_name(v: &Vec<TypeName>, n: &TypeName) -> (b: bool)
    ensures
        b == names_model(v@).contains(n@),
{
    let mut i: usize = 0;
    while i < v.len()
        invariant
            i <= v@.len(),
            forall|k: int| 0 <= k < i ==> names_model(v@)[k] != n@,
        decreases v.len() - i,
    {
        if v[i].same(n) {
            assert(names_model(v@)[i as int] == n@);
            return true;
        }
        i = i + 1;
    }
    false
}

/// The names the seeds need, themselves included: the dependencies of every defined
/// name, again and again.
fn dependency_closure(all: &Vec<(usize, &Type)>, seeds: &Vec<TypeName>) -> (out: Vec<TypeName>)
    ensures
        name_set(out@) == closure(flat_model(all@), name_set(seeds@)),
        least_closure(flat_model(all@), name_set(seeds@), name_set(out@)),
{
    let ghost f = flat_model(all@);
    let ghost s0 = name_set(seeds@);
    let ghost useq = names_model(seeds@) + all_deps(f, f.len() as int);
    let ghost u = useq.to_set();
    proof {
        vstd::seq_lib::seq_to_set_is_finite(useq);
        useq.lemma_cardinality_of_set();
    }
    let mut out: Vec<TypeName> = Vec::new();
    let mut j: usize = 0;
    while j < seeds.len()
        invariant
            j <= seeds@.len(),
            s0 == name_set(seeds@),
            useq == names_model(seeds@) + all_deps(f, f.len() as int),
            name_set(out@) == names_model(seeds@).take(j as int).to_set(),
            names_model(out@).no_duplicates(),
        decreases seeds.len() - j,
    {
        proof {
            assert(names_model(seeds@).take(j as int + 1) =~= names_model(seeds@).take(j as int).push(seeds@[j as int]@));
            lemma_seq_push_set(names_model(seeds@).take(j as int), seeds@[j as int]@);
        }
        if !contains_name(&out, &seeds[j]) {
            let c = seeds[j].clone();
            proof {
                lemma_name_set_push(out@, c);
                assert(names_model(out@.push(c)) =~= names_model(out@).push(c@));
            }
            out.push(c);
        } else {
            proof {
                assert(names_model(out@).to_set().contains(seeds@[j as int]@));
                assert(name_set(out@) =~= name_set(out@).insert(seeds@[j as int]@));
            }
        }
        j = j + 1;
    }
    proof {
        assert(names_model(seeds@).take(j as int) =~= names_model(seeds@));
        assert forall|n: Seq<char>| name_set(out@).contains(n) implies u.contains(n) by {
            let k = choose|k: int| 0 <= k < names_model(seeds@).len() && names_model(seeds@)[k] == n;
            assert(useq[k] == n);
        }
        assert forall|t: Set<Seq<char>>| #[trigger] deps_closed(f, t) && s0.subset_of(t) implies name_set(out@).subset_of(t) by {
        }
        names_model(out@).unique_seq_to_set();
        vstd::set_lib::lemma_len_subset(name_set(out@), u);
    }
    let mut i: usize = 0;
    while i < out.len()
        invariant
            f == flat_model(all@),
            s0 == name_set(seeds@),
            u == useq.to_set(),
            u.finite(),
            u.len() <= useq.len(),
            useq == names_model(seeds@) + all_deps(f, f.len() as int),
            s0.subset_of(name_set(out@)),
            forall|t: Set<Seq<char>>| #[trigger] deps_closed(f, t) && s0.subset_of(t) ==> name_set(out@).subset_of(t),
            forall|q: int, p: int|
                #![trigger names_model(out@)[q], f[p]]
                0 <= q < i && first_named(f, names_model(out@)[q], 0) == Some(p)
                    ==> deps_spec(f[p].1.kind).to_set().subset_of(name_set(out@)),
            names_model(out@).no_duplicates(),
            name_set(out@).subset_of(u),
            out@.len() <= u.len(),
            i <= out@.len(),
        decreases u.len() - i,
    {
        let n = out[i].clone();
        let ghost before = name_set(out@);
        let ghost out0 = out@;
        match find_named(all, &n) {
            None => {
                proof {
                    assert forall|q: int, pp: int|
                        #![trigger names_model(out@)[q], f[pp]]
                        0 <= q < i + 1 && first_named(f, names_model(out@)[q], 0) == Some(pp)
                            implies deps_spec(f[pp].1.kind).to_set().subset_of(name_set(out@)) by {
                        if q == i {
                            assert(names_model(out@)[q] == n@);
                        }
                    }
                }
            },
            Some(p) => {
                let deps = deps_of(all[p].1);
                let ghost ds = deps_spec(f[p as int].1.kind);
                assert(refs_model(deps@) == ds);
                let mut k: usize = 0;
                while k < deps.len()
                    invariant
                        f == flat_model(all@),
                        p < f.len(),
                        first_named(f, n@, 0) == Some(p as int),
                        n@ == names_model(out0)[i as int],
                        i < out0.len(),
                        out0.len() <= out@.len(),
                        forall|q: int| 0 <= q < out0.len() ==> #[trigger] out@[q] == out0[q],
                        refs_model(deps@) == ds,
                        ds == deps_spec(f[p as int].1.kind),
                        k <= deps@.len(),
                        forall|q: int| 0 <= q < k ==> name_set(out@).contains(#[trigger] ds[q]),
                        s0 == name_set(seeds@),
                        u == useq.to_set(),
                        u.finite(),
                        u.len() <= useq.len(),
                        useq == names_model(seeds@) + all_deps(f, f.len() as int),
                        before.subset_of(name_set(out@)),
                        before == name_set(out0),
                        s0.subset_of(name_set(out@)),
                        forall|t: Set<Seq<char>>| #[trigger] deps_closed(f, t) && s0.subset_of(t) ==> name_set(out@).subset_of(t),
                        names_model(out@).no_duplicates(),
                        name_set(out@).subset_of(u),
                        out@.len() <= u.len(),
                    decreases deps.len() - k,
                {
                    let d = deps[k];
                    assert(d@ == ds[k as int]);
                    if !contains_name(&out, d) {
                        let c = d.clone();
                        let ghost o1 = out@;
                        proof {
                            lemma_name_set_push(out@, c);
                            assert(names_model(out@.push(c)) =~= names_model(out@).push(c@));
                            lemma_all_deps_contains(f, f.len() as int, p as int, k as int);
                            let ad = all_deps(f, f.len() as int);
                            let w = choose|w: int| 0 <= w < ad.len() && #[trigger] ad[w] == ds[k as int];
                            assert(useq[names_model(seeds@).len() + w] == c@);
                            assert forall|t: Set<Seq<char>>| #[trigger] deps_closed(f, t) && s0.subset_of(t) implies name_set(o1).insert(c@).subset_of(t) by {
                                assert(name_set(o1).subset_of(t));
                                assert(o1[i as int] == out0[i as int]);
                                assert(names_model(o1)[i as int] == n@);
                                assert(names_model(o1).to_set().contains(n@));
                                assert(t.contains(n@));
                                assert(f[p as int] == f[p as int]);
                                assert(deps_spec(f[p as int].1.kind).to_set().subset_of(t));
                                assert(ds.contains(c@)) by {
                                    assert(ds[k as int] == c@);
                                }
                            }
                        }
                        out.push(c);
                        proof {
                            assert(names_model(out@).no_duplicates());
                            names_model(out@).unique_seq_to_set();
                            vstd::set_lib::lemma_len_subset(name_set(out@), u);
                            assert(forall|q: int| 0 <= q < out0.len() ==> #[trigger] out@[q] == o1[q]);
                        }
                    }
                    k = k + 1;
                }
                proof {
                    assert(ds.to_set().subset_of(name_set(out@))) by {
                        assert forall|x: Seq<char>| ds.to_set().contains(x) implies name_set(out@).contains(x) by {
                            let q = choose|q: int| 0 <= q < ds.len() && ds[q] == x;
                        }
                    }
                    assert forall|q: int, pp: int|
                        #![trigger names_model(out@)[q], f[pp]]
                        0 <= q < i + 1 && first_named(f, names_model(out@)[q], 0) == Some(pp)
                            implies deps_spec(f[pp].1.kind).to_set().subset_of(name_set(out@)) by {
                        assert(out@[q] == out0[q]);
                        if q < i {
                            assert(names_model(out@)[q] == names_model(out0)[q]);
                            assert(deps_spec(f[pp].1.kind).to_set().subset_of(name_set(out0)));
                        }
                    }
                }
            },
        }
        i = i + 1;
    }
    proof {
        assert(deps_closed(f, name_set(out@))) by {
            assert forall|nm: Seq<char>, p: int|
                #![trigger name_set(out@).contains(nm), first_named(f, nm, 0), f[p]]
                name_set(out@).contains(nm) && first_named(f, nm, 0) == Some(p)
                    implies deps_spec(f[p].1.kind).to_set().subset_of(name_set(out@)) by {
                let q = choose|q: int| 0 <= q < names_model(out@).len() && names_model(out@)[q] == nm;
            }
        }
        assert(least_closure(f, s0, name_set(out@)));
        lemma_least_unique(f, s0, name_set(out@), closure(f, s0));
    }
    out
}


proof fn lemma_dup_err(f: Seq<(int, TypeModel)>, j: int)
    requires
        0 <= j,
        forall|q: int| 0 <= q < j ==> first_named(f, f[q].1.ident, 0) == Some(q),
    ensures
        first_dup(f, 0) == first_dup(f, j),
    decreases j,
{
    if j > 0 {
        lemma_dup_err(f, j - 1);
    }
}


/// Whether a name may be used by the root or kept: defined by the root or needed by an
/// import.
fn allowed_name(root_defs: &Vec<Type>, needed: &Vec<TypeName>, n: &TypeName) -> (b: bool)
    ensures
        b == (def_names(ModuleModel { name: Seq::empty(), source: Seq::empty(), imports: Seq::empty(), definitions: super::ast::types_model(root_defs@) }) + name_set(needed@)).contains(n@),
{
    let ghost m = ModuleModel { name: Seq::empty(), source: Seq::empty(), imports: Seq::empty(), definitions: super::ast::types_model(root_defs@) };
    let ghost rn = m.definitions.map_values(|t: TypeModel| t.ident);
    let mut i: usize = 0;
    while i < root_defs.len()
        invariant
            i <= root_defs@.len(),
            rn == super::ast::types_model(root_defs@).map_values(|t: TypeModel| t.ident),
            forall|k: int| 0 <= k < i ==> rn[k] != n@,
        decreases root_defs.len() - i,
    {
        if root_defs[i].ident.same(n) {
            assert(rn[i as int] == n@);
            assert(rn.to_set().contains(n@));
            return true;
        }
        i = i + 1;
    }
    assert(!rn.to_set().contains(n@)) by {
        if rn.contains(n@) {
            let k = choose|k: int| 0 <= k < rn.len() && rn[k] == n@;
        }
    }
    contains_name(needed, n)
}


proof fn lemma_first_named_found(f: Seq<(int, TypeModel)>, n: Seq<char>, i: int, j: int)
    requires
        0 <= i <= j < f.len(),
        f[j].1.ident == n,
    ensures
        first_named(f, n, i) matches Some(k) && i <= k <= j && f[k].1.ident == n,
    decreases j - i,
{
    if f[i].1.ident != n {
        lemma_first_named_found(f, n, i + 1, j);
    }
}

proof fn lemma_unimported_err(ds: Seq<TypeModel>, ok: Set<Seq<char>>, i: int)
    requires
        0 <= i,
        forall|q: int| 0 <= q < i ==> first_unknown(deps_spec(#[trigger] ds[q].kind), ok, 0) is None,
    ensures
        first_unimported(ds, ok, 0) == first_unimported(ds, ok, i),
    decreases i,
{
    if i > 0 {
        lemma_unimported_err(ds, ok, i - 1);
    }
}

proof fn lemma_unknown_step(deps: Seq<Seq<char>>, ok: Set<Seq<char>>, k: int)
    requires
        0 <= k,
        forall|q: int| 0 <= q < k ==> ok.contains(#[trigger] deps[q]) || builtin_type_name(deps[q]),
    ensures
        first_unknown(deps, ok, 0) == first_unknown(deps, ok, k),
    decreases k,
{
    if k > 0 {
        lemma_unknown_step(deps, ok, k - 1);
    }
}

/// Checks that every type a root definition uses is its own, needed by an import, or
/// builtin.
fn check_root_uses(root_defs: &Vec<Type>, needed: &Vec<TypeName>) -> (r: Result<(), LinkError>)
    ensures
        match first_unimported(
            super::ast::types_model(root_defs@),
            def_names(ModuleModel { name: Seq::empty(), source: Seq::empty(), imports: Seq::empty(), definitions: super::ast::types_model(root_defs@) }) + name_set(needed@),
            0,
        ) {
            Some(e) => r matches Err(x) && x@ == e,
            None => r is Ok,
        },
{
    let ghost ds = super::ast::types_model(root_defs@);
    let ghost ok = def_names(ModuleModel { name: Seq::empty(), source: Seq::empty(), imports: Seq::empty(), definitions: ds }) + name_set(needed@);
    let mut i: usize = 0;
    while i < root_defs.len()
        invariant
            i <= root_defs@.len(),
            ds == super::ast::types_model(root_defs@),
            ok == def_names(ModuleModel { name: Seq::empty(), source: Seq::empty(), imports: Seq::empty(), definitions: ds }) + name_set(needed@),
            forall|q: int| 0 <= q < i ==> first_unknown(deps_spec(#[trigger] ds[q].kind), ok, 0) is None,
        decreases root_defs.len() - i,
    {
        let def = &root_defs[i];
        let deps = deps_of(def);
        let ghost dd = deps_spec(ds[i as int].kind);
        let mut k: usize = 0;
        while k < deps.len()
            invariant
                k <= deps@.len(),
                refs_model(deps@) == dd,
                forall|q: int| 0 <= q < k ==> ok.contains(#[trigger] dd[q]) || builtin_type_name(dd[q]),
                i < root_defs@.len(),
                def == &root_defs@[i as int],
                ds == super::ast::types_model(root_defs@),
                dd == deps_spec(ds[i as int].kind),
                ok == def_names(ModuleModel { name: Seq::empty(), source: Seq::empty(), imports: Seq::empty(), definitions: ds }) + name_set(needed@),
                forall|q: int| 0 <= q < i ==> first_unknown(deps_spec(#[trigger] ds[q].kind), ok, 0) is None,
            decreases deps.len() - k,
        {
            let d = deps[k];
            assert(d@ == dd[k as int]);
            if !allowed_name(root_defs, needed, d) && !is_builtin(d) {
                proof {
                    lemma_unknown_step(dd, ok, k as int);
                    lemma_unimported_err(ds, ok, i as int);
                }
                return Err(LinkError::NotImported { ty: d.clone(), user: def.ident.clone(), at: def.defined_at.clone() });
            }
            k = k + 1;
        }
        proof {
            lemma_unknown_step(dd, ok, k as int);
        }
        i = i + 1;
    }
    proof {
        lemma_unimported_err(ds, ok, i as int);
    }
    Ok(())
}


proof fn lemma_flat_step(ms: Seq<ModuleModel>, i: int, j: int)
    requires
        0 <= i < ms.len(),
        0 <= j < ms[i].definitions.len(),
    ensures
        flat_of(ms, i + 1).len() == flat_of(ms, i).len() + ms[i].definitions.len(),
        flat_of(ms, i + 1)[flat_of(ms, i).len() + j] == (i, ms[i].definitions[j]),
{
}

proof fn lemma_flat_len(ms: Seq<ModuleModel>, i: int)
    requires
        0 <= i < ms.len(),
    ensures
        flat_of(ms, i + 1).len() == flat_of(ms, i).len() + ms[i].definitions.len(),
        flat_of(ms, i).len() <= flat_of(ms, ms.len() as int).len(),
        flat_of(ms, i + 1).len() <= flat_of(ms, ms.len() as int).len(),
        forall|k: int| 0 <= k < flat_of(ms, i + 1).len() ==> flat_of(ms, ms.len() as int)[k] == flat_of(ms, i + 1)[k],
    decreases ms.len() - i,
{
    if i + 1 < ms.len() {
        lemma_flat_len(ms, i + 1);
    }
}

/// Links the loaded modules `modules`, sorted as the loader sorts them, whose root is
/// `modules[root]`; `import_targets[k]` is the index of the module that the root's `k`-th
/// import points to, or `None` when it points to none. The result is named after the
/// root and keeps its source and imports; its definitions are those of the root and those
/// its imports need, the root's first, then by module.
pub fn link(modules: Vec<Module>, root: usize, import_targets: Vec<Option<usize>>) -> (r: Result<
    Module,
    LinkError,
>)
    requires
        root < modules@.len(),
        import_targets@.len() == modules@[root as int].imports@.len(),
        forall|k: int|
            0 <= k < import_targets@.len() ==> (#[trigger] import_targets@[k] matches Some(t) ==> t
                < modules@.len()),
    ensures
        match (r, link_spec(modules_model(modules@), root as int, import_targets@)) {
            (Ok(m), Ok(s)) => m@ == s,
            (Err(a), Err(b)) => a@ == b,
            _ => false,
        },
        r matches Ok(m) ==> crate::compile::names_distinct(m@.definitions),
        r matches Ok(m) ==> forall|j: int|
            0 <= j < modules_model(modules@)[root as int].definitions.len() ==> m@.definitions.contains(
                #[trigger] modules_model(modules@)[root as int].definitions[j],
            ),
        r matches Ok(m) ==> forall|q: int, x: Seq<char>|
            0 <= q < modules_model(modules@)[root as int].imports.len() && !modules_model(
                modules@,
            )[root as int].imports[q].import_all && #[trigger] modules_model(
                modules@,
            )[root as int].imports[q].types.contains(x) ==> exists|j: int|
                0 <= j < m@.definitions.len() && (#[trigger] m@.definitions[j]).ident == x,
        r matches Ok(m) ==> forall|q: int, j: int|
            0 <= q < modules_model(modules@)[root as int].imports.len() && modules_model(
                modules@,
            )[root as int].imports[q].import_all && import_targets@[q] is Some && 0 <= j
                < modules_model(modules@)[import_targets@[q]->Some_0 as int].definitions.len()
                ==> m@.definitions.contains(
                #[trigger] modules_model(modules@)[import_targets@[q]->Some_0 as int].definitions[j],
            ),
        r matches Ok(m) ==> forall|i: int, n: Seq<char>|
            0 <= i < m@.definitions.len() && #[trigger] mentions(m@.definitions[i].kind, n) ==> available_in(
                m@.definitions,
                modules_model(modules@),
                n,
            ),
        r matches Ok(m) ==> forall|i: int, k: int|
            0 <= i < m@.definitions.len() && m@.definitions[i].kind is Sequence && 0 <= k
                < m@.definitions[i].kind->Sequence_members.len() ==> available_in(
                m@.definitions,
                modules_model(modules@),
                #[trigger] m@.definitions[i].kind->Sequence_members[k].ty,
            ),
        r matches Ok(m) ==> forall|i: int, k: int|
            0 <= i < m@.definitions.len() && m@.definitions[i].kind is Pack && 0 <= k
                < m@.definitions[i].kind->Pack_members.len() ==> available_in(
                m@.definitions,
                modules_model(modules@),
                #[trigger] m@.definitions[i].kind->Pack_members[k].ty,
            ),
{
    let ghost ms = modules_model(modules@);
    let mut mods = modules;
    let first = mods.remove(root);
    mods.insert(0, first);
    let ghost mv = modules_model(mods@);
    proof {
        assert(mv =~= root_first(ms, root as int));
    }
    let keep: Vec<bool>;
    {
        let all = flatten(&mods);
        let ghost f = flat(mv);
        let mut j: usize = 0;
        while j < all.len()
            invariant
                f == flat_model(all@),
                f == flat(mv),
                mv == root_first(ms, root as int),
                ms == modules_model(modules@),
                j <= all@.len(),
                forall|q: int| 0 <= q < j ==> first_named(f, f[q].1.ident, 0) == Some(q),
            decreases all.len() - j,
        {
            let n = &all[j].1.ident;
            proof {
                lemma_first_named_found(f, n@, 0, j as int);
            }
            let found = find_named(&all, n);
            let p = match found {
                Some(p) => p,
                None => j,
            };
            if p != j {
                proof {
                    lemma_dup_err(f, j as int);
                    assert(first_dup(f, j as int) == Some(j as int));
                    assert(f[p as int].1.defined_at == all@[p as int].1@.defined_at);
                    assert(first_dup(flat(root_first(ms, root as int)), 0) == Some(j as int));
                    assert(first_named(f, f[j as int].1.ident, 0) == Some(p as int));
                    assert(link_spec(ms, root as int, import_targets@) == Err::<ModuleModel, LinkErrorModel>(LinkErrorModel::DuplicateTypeName {
                        name: f[j as int].1.ident,
                        defined_at: f[j as int].1.defined_at,
                        previous: f[p as int].1.defined_at,
                    }));
                    assert(f[j as int].1.ident == n@);
                    assert(f[j as int].1.defined_at == all@[j as int].1.defined_at@);
                }
                let e = LinkError::DuplicateTypeName {
                    name: n.clone(),
                    defined_at: all[j].1.defined_at.clone(),
                    previous: all[p].1.defined_at.clone(),
                };
                assert(e@ == LinkErrorModel::DuplicateTypeName {
                    name: f[j as int].1.ident,
                    defined_at: f[j as int].1.defined_at,
                    previous: f[p as int].1.defined_at,
                });
                return Err(e);
            }
            j = j + 1;
        }
        proof {
            lemma_dup_err(f, j as int);
        }
        let chosen_names = choose_imports(&all, &mods, root, &import_targets)?;
        let needed = dependency_closure(&all, &chosen_names);
        proof {
            assert(least_closure(
                f,
                chosen(mv, root as int, import_targets@, mv[0].imports.len() as int)->Ok_0,
                closure(f, chosen(mv, root as int, import_targets@, mv[0].imports.len() as int)->Ok_0),
            ));
        }
        check_root_uses(&mods[0].definitions, &needed)?;
        let ghost allowed = def_names(mv[0]) + closure(f, name_set(chosen_names@));
        let mut kp: Vec<bool> = Vec::new();
        let mut q: usize = 0;
        while q < all.len()
            invariant
                f == flat_model(all@),
                q <= all@.len(),
                kp@.len() == q,
                mods@.len() > 0,
                mv == modules_model(mods@),
                name_set(needed@) == closure(f, name_set(chosen_names@)),
                allowed == def_names(mv[0]) + closure(f, name_set(chosen_names@)),
                forall|k: int| 0 <= k < q ==> #[trigger] kp@[k] == allowed.contains(f[k].1.ident),
            decreases all.len() - q,
        {
            let b = allowed_name(&mods[0].definitions, &needed, &all[q].1.ident);
            kp.push(b);
            q = q + 1;
        }
        keep = kp;
    }
    let ghost f = flat(mv);
    let ghost allowed = def_names(mv[0]) + closure(f, choose|s: Set<Seq<char>>| chosen(mv, root as int, import_targets@, mv[0].imports.len() as int) == Ok::<Set<Seq<char>>, LinkErrorModel>(s));
    let mut out_defs: Vec<Type> = Vec::new();
    let mut name = String::new();
    let mut source = String::new();
    let mut imports: Vec<super::ast::Import> = Vec::new();
    let mut idx: usize = 0;
    let mut i: usize = 0;
    let klen = keep.len();
    let n_exec = mods.len();
    let ghost n_mods = n_exec as nat;
    while mods.len() > 0
        invariant
            i + mods@.len() == n_mods,
            n_mods == mv.len(),
            n_mods <= usize::MAX,
            modules_model(mods@) == mv.skip(i as int),
            idx == flat_of(mv, i as int).len(),
            keep@.len() == f.len(),
            keep@.len() == klen,
            f == flat_of(mv, mv.len() as int),
            forall|k: int| 0 <= k < f.len() ==> #[trigger] keep@[k] == allowed.contains(f[k].1.ident),
            super::ast::types_model(out_defs@) == kept_of(mv, allowed, i as int),
            i > 0 ==> name@ == mv[0].name && source@ == mv[0].source && super::ast::imports_model(imports@) == mv[0].imports,
        decreases mods.len(),
    {
        assert(modules_model(mods@)[0] == mv[i as int]);
        let ghost before = mods@;
        let m = mods.remove(0);
        let ghost mm = mv[i as int];
        assert(m@ == mm);
        assert(modules_model(mods@) =~= mv.skip(i as int + 1)) by {
            assert forall|k: int| 0 <= k < mods@.len() implies modules_model(mods@)[k] == mv.skip(i as int + 1)[k] by {
                assert(mods@[k] == before[k + 1]);
                assert(modules_model(before)[k + 1] == mv.skip(i as int)[k + 1]);
            }
        }
        let Module { name: mname, source: msource, imports: mimports, definitions } = m;
        if i == 0 {
            name = mname;
            source = msource;
            imports = mimports;
        }
        let mut ds = definitions;
        let ghost d0 = ds@;
        let ghost base = super::ast::types_model(out_defs@);
        let mut j: usize = 0;
        while ds.len() > 0
            invariant
                j + ds@.len() == d0.len(),
                ds@ == d0.skip(j as int),
                super::ast::types_model(d0) == mm.definitions,
                idx == flat_of(mv, i as int).len() + j,
                i < mv.len(),
                mm == mv[i as int],
                keep@.len() == f.len(),
                keep@.len() == klen,
                f == flat_of(mv, mv.len() as int),
                forall|k: int| 0 <= k < f.len() ==> #[trigger] keep@[k] == allowed.contains(f[k].1.ident),
                super::ast::types_model(out_defs@) == base + mm.definitions.take(j as int).filter(|t: TypeModel| allowed.contains(t.ident)),
                base == kept_of(mv, allowed, i as int),
                modules_model(mods@) == mv.skip(i as int + 1),
                name@ == mv[0].name,
                source@ == mv[0].source,
                super::ast::imports_model(imports@) == mv[0].imports,
            decreases ds.len(),
        {
            let d = ds.remove(0);
            proof {
                assert(d@ == mm.definitions[j as int]);
                lemma_flat_step(mv, i as int, j as int);
                lemma_flat_len(mv, i as int);
                reveal(Seq::filter);
                assert(mm.definitions.take(j as int + 1).drop_last() =~= mm.definitions.take(j as int));
                assert(ds@ =~= d0.skip(j as int + 1));
            }
            proof {
                assert(f[idx as int] == (i as int, mm.definitions[j as int]));
                assert(keep@[idx as int] == allowed.contains(mm.definitions[j as int].ident));
                assert(mm.definitions.take(j as int + 1).last() == mm.definitions[j as int]);
            }
            let ghost pred = |t: TypeModel| allowed.contains(t.ident);
            let ghost old_out = out_defs@;
            if keep[idx] {
                out_defs.push(d);
                proof {
                    reveal(Seq::filter);
                    assert(mm.definitions.take(j as int + 1).drop_last() =~= mm.definitions.take(j as int));
                    assert(mm.definitions.take(j as int + 1).filter(pred) == mm.definitions.take(j as int).filter(pred).push(d@));
                    assert(super::ast::types_model(out_defs@) =~= super::ast::types_model(old_out).push(d@));
                    assert(super::ast::types_model(out_defs@) =~= base + mm.definitions.take(j as int + 1).filter(|t: TypeModel| allowed.contains(t.ident)));
                }
            } else {
                proof {
                    reveal(Seq::filter);
                    assert(mm.definitions.take(j as int + 1).drop_last() =~= mm.definitions.take(j as int));
                    assert(mm.definitions.take(j as int + 1).filter(pred) == mm.definitions.take(j as int).filter(pred));
                    assert(super::ast::types_model(out_defs@) =~= base + mm.definitions.take(j as int + 1).filter(|t: TypeModel| allowed.contains(t.ident)));
                }
            }
            idx = idx + 1;
            j = j + 1;
        }
        proof {
            assert(mm.definitions.take(j as int) =~= mm.definitions);
            assert(modules_model(mods@) =~= mv.skip(i as int + 1));
        }
        i = i + 1;
    }
    proof {
        assert(i == mv.len());
        lemma_linked_names_distinct(ms, root as int, import_targets@);
        lemma_linked_deps_available(ms, root as int, import_targets@);
        lemma_linked_keeps_root_and_imports(ms, root as int, import_targets@);
    }
    Ok(Module { name, source, imports, definitions: out_defs })
}


// ---------------------------------------------------------------------------
// Laws
// ---------------------------------------------------------------------------
pub open spec fn idents_distinct(s: Seq<TypeModel>) -> bool {
    forall|i: int, j: int| 0 <= i < j < s.len() ==> #[trigger] s[i].ident != #[trigger] s[j].ident
}

proof fn lemma_filter_distinct(s: Seq<TypeModel>, p: spec_fn(TypeModel) -> bool)
    requires
        idents_distinct(s),
    ensures
        idents_distinct(s.filter(p)),
        forall|x: TypeModel| #[trigger] s.filter(p).contains(x) ==> s.contains(x),
    decreases s.len(),
{
    reveal(Seq::filter);
    if s.len() > 0 {
        let d = s.drop_last();
        assert(idents_distinct(d)) by {
            assert forall|i: int, j: int| 0 <= i < j < d.len() implies #[trigger] d[i].ident != #[trigger] d[j].ident by {
                assert(d[i] == s[i] && d[j] == s[j]);
            }
        }
        lemma_filter_distinct(d, p);
        let fd = d.filter(p);
        assert forall|x: TypeModel| #[trigger] s.filter(p).contains(x) implies s.contains(x) by {
            if fd.contains(x) {
                let k = choose|k: int| 0 <= k < d.len() && d[k] == x;
                assert(s[k] == x);
            } else {
                assert(s[s.len() - 1] == x);
            }
        }
        if p(s.last()) {
            let r = fd.push(s.last());
            assert forall|i: int, j: int| 0 <= i < j < r.len() implies #[trigger] r[i].ident != #[trigger] r[j].ident by {
                if j == r.len() - 1 {
                    assert(fd.contains(r[i]));
                    let k = choose|k: int| 0 <= k < d.len() && d[k] == r[i];
                    assert(s[k] == r[i]);
                    assert(s[s.len() - 1] == r[j]);
                }
            }
        }
    }
}

proof fn lemma_first_dup_none(f: Seq<(int, TypeModel)>, j: int)
    requires
        0 <= j,
        first_dup(f, j) is None,
    ensures
        forall|q: int| j <= q < f.len() ==> first_named(f, #[trigger] f[q].1.ident, 0) == Some(q),
    decreases f.len() - j,
{
    if j < f.len() {
        lemma_first_dup_none(f, j + 1);
    }
}

/// Under `first_dup` being `None`, the first `k` modules' definitions have distinct names,
/// and what `kept_of` keeps of them does too.
proof fn lemma_kept_distinct(ms: Seq<ModuleModel>, allowed: Set<Seq<char>>, k: int)
    requires
        0 <= k <= ms.len(),
        forall|i: int, j: int|
            0 <= i < j < flat(ms).len() ==> #[trigger] flat(ms)[i].1.ident != #[trigger] flat(ms)[j].1.ident,
    ensures
        idents_distinct(kept_of(ms, allowed, k)),
        forall|x: TypeModel| #[trigger] kept_of(ms, allowed, k).contains(x) ==> exists|q: int| 0 <= q < flat_of(ms, k).len() && #[trigger] flat_of(ms, k)[q].1 == x,
    decreases k,
{
    if k > 0 {
        lemma_kept_distinct(ms, allowed, k - 1);
        lemma_flat_len(ms, k - 1);
        let f = flat(ms);
        let a = kept_of(ms, allowed, k - 1);
        let defs = ms[k - 1].definitions;
        let pred = |t: TypeModel| allowed.contains(t.ident);
        let base = flat_of(ms, k - 1).len();
        assert(idents_distinct(defs)) by {
            assert forall|i: int, j: int| 0 <= i < j < defs.len() implies #[trigger] defs[i].ident != #[trigger] defs[j].ident by {
                lemma_flat_step(ms, k - 1, i);
                lemma_flat_step(ms, k - 1, j);
                assert(f[base + i] == flat_of(ms, k)[base + i]);
                assert(f[base + j] == flat_of(ms, k)[base + j]);
                assert(f[base + i].1.ident != f[base + j].1.ident);
            }
        }
        lemma_filter_distinct(defs, pred);
        let b = defs.filter(pred);
        let r = a + b;
        assert(r == kept_of(ms, allowed, k));
        assert forall|i: int, j: int| 0 <= i < j < r.len() implies #[trigger] r[i].ident != #[trigger] r[j].ident by {
            if j >= a.len() && i < a.len() {
                assert(a.contains(r[i]));
                let fk = flat_of(ms, k - 1);
                let q = choose|q: int| 0 <= q < fk.len() && #[trigger] fk[q].1 == r[i];
                assert(b.contains(r[j])) by {
                    assert(b[j - a.len()] == r[j]);
                }
                let w = choose|w: int| 0 <= w < defs.len() && defs[w] == r[j];
                lemma_flat_step(ms, k - 1, w);
                assert(f[base + w] == flat_of(ms, k)[base + w]);
                assert(f[q] == flat_of(ms, k)[q]);
                assert(flat_of(ms, k)[q] == flat_of(ms, k - 1)[q]);
                assert(f[q].1.ident != f[base + w].1.ident);
            } else if i >= a.len() {
                assert(r[i] == b[i - a.len()] && r[j] == b[j - a.len()]);
            } else {
                assert(r[i] == a[i] && r[j] == a[j]);
            }
        }
        assert forall|x: TypeModel| #[trigger] kept_of(ms, allowed, k).contains(x) implies exists|q: int| 0 <= q < flat_of(ms, k).len() && #[trigger] flat_of(ms, k)[q].1 == x by {
            let c = choose|c: int| 0 <= c < r.len() && r[c] == x;
            if c < a.len() {
                assert(a.contains(x));
                let fk = flat_of(ms, k - 1);
                let q = choose|q: int| 0 <= q < fk.len() && #[trigger] fk[q].1 == x;
                assert(flat_of(ms, k)[q] == flat_of(ms, k - 1)[q]);
                assert(flat_of(ms, k)[q].1 == x);
            } else {
                assert(b.contains(x)) by {
                    assert(b[c - a.len()] == x);
                }
                let w = choose|w: int| 0 <= w < defs.len() && defs[w] == x;
                lemma_flat_step(ms, k - 1, w);
                assert(flat_of(ms, k)[base + w].1 == x);
            }
        }
    }
}

/// A linked module never defines a name twice, so it can be compiled as it is.
pub proof fn lemma_linked_names_distinct(ms: Seq<ModuleModel>, root: int, targets: Seq<Option<usize>>)
    requires
        0 <= root < ms.len(),
        link_spec(ms, root, targets) is Ok,
    ensures
        crate::compile::names_distinct(link_spec(ms, root, targets)->Ok_0.definitions),
{
    let mv = root_first(ms, root);
    let f = flat(mv);
    lemma_first_dup_none(f, 0);
    assert forall|i: int, j: int| 0 <= i < j < f.len() implies #[trigger] f[i].1.ident != #[trigger] f[j].1.ident by {
        if f[i].1.ident == f[j].1.ident {
            assert(first_named(f, f[i].1.ident, 0) == Some(i));
            assert(first_named(f, f[j].1.ident, 0) == Some(j));
        }
    }
    let seeds = chosen(mv, root, targets, mv[0].imports.len() as int)->Ok_0;
    let allowed = def_names(mv[0]) + closure(f, seeds);
    lemma_kept_distinct(mv, allowed, mv.len() as int);
}


/// `n` names a builtin type, a definition of `defs`, or a type that none of the loaded
/// modules `ms` defines.
pub open spec fn available_in(defs: Seq<TypeModel>, ms: Seq<ModuleModel>, n: Seq<char>) -> bool {
    ||| builtin_type_name(n)
    ||| exists|j: int| 0 <= j < defs.len() && (#[trigger] defs[j]).ident == n
    ||| forall|i: int, j: int|
        0 <= i < ms.len() && 0 <= j < ms[i].definitions.len() ==> (#[trigger] ms[i].definitions[j]).ident != n
}

/// What `kept_of` keeps has an allowed name.
proof fn lemma_kept_allowed(ms: Seq<ModuleModel>, allowed: Set<Seq<char>>, k: int, x: TypeModel)
    requires
        0 <= k <= ms.len(),
        kept_of(ms, allowed, k).contains(x),
    ensures
        allowed.contains(x.ident),
    decreases k,
{
    let a = kept_of(ms, allowed, k - 1);
    let pred = |t: TypeModel| allowed.contains(t.ident);
    let b = ms[k - 1].definitions.filter(pred);
    assert(kept_of(ms, allowed, k) == a + b);
    let c = choose|c: int| 0 <= c < (a + b).len() && (a + b)[c] == x;
    if c < a.len() {
        assert(a[c] == x);
        lemma_kept_allowed(ms, allowed, k - 1, x);
    } else {
        assert(b[c - a.len()] == x);
        ms[k - 1].definitions.lemma_filter_pred(pred, c - a.len());
    }
}

/// `kept_of` keeps every definition of the first `k` modules whose name is allowed.
proof fn lemma_kept_complete(ms: Seq<ModuleModel>, allowed: Set<Seq<char>>, k: int, mi: int, j: int)
    requires
        0 <= mi < k <= ms.len(),
        0 <= j < ms[mi].definitions.len(),
        allowed.contains(ms[mi].definitions[j].ident),
    ensures
        kept_of(ms, allowed, k).contains(ms[mi].definitions[j]),
    decreases k,
{
    let x = ms[mi].definitions[j];
    let a = kept_of(ms, allowed, k - 1);
    let pred = |t: TypeModel| allowed.contains(t.ident);
    let b = ms[k - 1].definitions.filter(pred);
    assert(kept_of(ms, allowed, k) == a + b);
    if mi < k - 1 {
        lemma_kept_complete(ms, allowed, k - 1, mi, j);
        let q = choose|q: int| 0 <= q < a.len() && a[q] == x;
        assert((a + b)[q] == x);
    } else {
        ms[mi].definitions.lemma_filter_contains(pred, j);
        let q = choose|q: int| 0 <= q < b.len() && b[q] == x;
        assert((a + b)[a.len() + q] == x);
    }
}

/// No root definition has a name outside `ok` that is not builtin when none is reported.
proof fn lemma_unimported_none(ds: Seq<TypeModel>, ok: Set<Seq<char>>, i: int)
    requires
        0 <= i,
        first_unimported(ds, ok, i) is None,
    ensures
        forall|q: int| i <= q < ds.len() ==> first_unknown(deps_spec(#[trigger] ds[q].kind), ok, 0) is None,
    decreases ds.len() - i,
{
    if i < ds.len() {
        lemma_unimported_none(ds, ok, i + 1);
    }
}

proof fn lemma_unknown_none(deps: Seq<Seq<char>>, ok: Set<Seq<char>>, k: int)
    requires
        0 <= k,
        first_unknown(deps, ok, k) is None,
    ensures
        forall|q: int| k <= q < deps.len() ==> ok.contains(#[trigger] deps[q]) || builtin_type_name(deps[q]),
    decreases deps.len() - k,
{
    if k < deps.len() {
        lemma_unknown_none(deps, ok, k + 1);
    }
}

/// Module `i` of the loaded modules, once the root is moved to the front.
proof fn lemma_root_first_index(ms: Seq<ModuleModel>, root: int, i: int)
    requires
        0 <= root < ms.len(),
        0 <= i < ms.len(),
    ensures
        root_first(ms, root).len() == ms.len(),
        0 <= moved_index(root, i) < ms.len(),
        root_first(ms, root)[moved_index(root, i)] == ms[i],
{
    let r = ms.remove(root);
    assert(root_first(ms, root) == r.insert(0, ms[root]));
    if i < root {
        assert(r[i] == ms[i]);
    } else if i > root {
        assert(r[i - 1] == ms[i]);
    }
}

/// Entry `i` of the flattened definitions of the first `k` modules is a definition of the
/// module it is tagged with.
proof fn lemma_flat_entry(ms: Seq<ModuleModel>, k: int, i: int)
    requires
        0 <= k <= ms.len(),
        0 <= i < flat_of(ms, k).len(),
    ensures
        0 <= flat_of(ms, k)[i].0 < k,
        exists|j: int|
            0 <= j < ms[flat_of(ms, k)[i].0].definitions.len() && ms[flat_of(ms, k)[i].0].definitions[j]
                == flat_of(ms, k)[i].1,
    decreases k,
{
    let a = flat_of(ms, k - 1);
    let b = ms[k - 1].definitions.map_values(|t: TypeModel| (k - 1, t));
    assert(flat_of(ms, k) == a + b);
    if i < a.len() {
        lemma_flat_entry(ms, k - 1, i);
        assert(flat_of(ms, k)[i] == a[i]);
    } else {
        assert(flat_of(ms, k)[i] == b[i - a.len()]);
        assert(ms[k - 1].definitions[i - a.len()] == flat_of(ms, k)[i].1);
    }
}

/// What the names of an import choose holds what came before and each named type, whose
/// owner is the imported module.
proof fn lemma_named_imports_grow(f: Seq<(int, TypeModel)>, m: int, imp: ImportModel, acc: Set<Seq<char>>, k: int)
    requires
        0 <= k <= imp.types.len(),
        named_imports(f, m, imp, acc, k) is Ok,
    ensures
        acc.subset_of(named_imports(f, m, imp, acc, k)->Ok_0),
        forall|q: int|
            0 <= q < k ==> named_imports(f, m, imp, acc, k)->Ok_0.contains(#[trigger] imp.types[q]) && owner(
                f,
                imp.types[q],
            ) == Some(m),
    decreases k,
{
    if k > 0 {
        lemma_named_imports_grow(f, m, imp, acc, k - 1);
    }
}

/// What the first `k` imports of the root choose: each module imported whole gives all its
/// names, and each import by name gives the types it names, owned by the module it points
/// to.
proof fn lemma_chosen_grow(mv: Seq<ModuleModel>, root: int, targets: Seq<Option<usize>>, k: int)
    requires
        mv.len() > 0,
        0 <= k <= mv[0].imports.len(),
        chosen(mv, root, targets, k) is Ok,
    ensures
        forall|q: int|
            0 <= q < k ==> (#[trigger] targets[q]) is Some && (mv[0].imports[q].import_all ==> def_names(
                mv[moved_index(root, targets[q]->Some_0 as int)],
            ).subset_of(chosen(mv, root, targets, k)->Ok_0)) && (!mv[0].imports[q].import_all ==> forall|x: Seq<char>|
                #[trigger] mv[0].imports[q].types.contains(x) ==> chosen(mv, root, targets, k)->Ok_0.contains(x)
                    && owner(flat(mv), x) == Some(moved_index(root, targets[q]->Some_0 as int))),
    decreases k,
{
    if k > 0 {
        lemma_chosen_grow(mv, root, targets, k - 1);
        let s = chosen(mv, root, targets, k - 1)->Ok_0;
        let imp = mv[0].imports[k - 1];
        let t = targets[k - 1]->Some_0;
        let m = moved_index(root, t as int);
        let r = chosen(mv, root, targets, k)->Ok_0;
        if !imp.import_all {
            lemma_named_imports_grow(flat(mv), m, imp, s, imp.types.len() as int);
            assert forall|x: Seq<char>| #[trigger] imp.types.contains(x) implies r.contains(x) && owner(flat(mv), x)
                == Some(m) by {
                let q = choose|q: int| 0 <= q < imp.types.len() && imp.types[q] == x;
            }
        }
        assert(s.subset_of(r));
    }
}

proof fn lemma_first_named_some(f: Seq<(int, TypeModel)>, n: Seq<char>, i: int)
    requires
        0 <= i,
        first_named(f, n, i) is Some,
    ensures
        0 <= first_named(f, n, i)->Some_0 < f.len(),
        f[first_named(f, n, i)->Some_0].1.ident == n,
    decreases f.len() - i,
{
    if i < f.len() && f[i].1.ident != n {
        lemma_first_named_some(f, n, i + 1);
    }
}

/// Linking keeps the root's own definitions, every definition of a module the root
/// imports whole, and a definition of every type the root imports by name.
proof fn lemma_linked_keeps_root_and_imports(ms: Seq<ModuleModel>, root: int, targets: Seq<Option<usize>>)
    requires
        0 <= root < ms.len(),
        forall|k: int| 0 <= k < targets.len() ==> (#[trigger] targets[k] matches Some(t) ==> t < ms.len()),
        targets.len() == ms[root].imports.len(),
        link_spec(ms, root, targets) is Ok,
        least_closure(
            flat(root_first(ms, root)),
            chosen(root_first(ms, root), root, targets, root_first(ms, root)[0].imports.len() as int)->Ok_0,
            closure(
                flat(root_first(ms, root)),
                chosen(root_first(ms, root), root, targets, root_first(ms, root)[0].imports.len() as int)->Ok_0,
            ),
        ),
    ensures
        ({
            let defs = link_spec(ms, root, targets)->Ok_0.definitions;
            let imps = ms[root].imports;
            &&& forall|j: int| 0 <= j < ms[root].definitions.len() ==> defs.contains(#[trigger] ms[root].definitions[j])
            &&& forall|q: int, x: Seq<char>|
                0 <= q < imps.len() && !imps[q].import_all && #[trigger] imps[q].types.contains(x) ==> exists|j: int|
                    0 <= j < defs.len() && (#[trigger] defs[j]).ident == x
            &&& forall|q: int, j: int|
                0 <= q < imps.len() && imps[q].import_all && targets[q] is Some && 0 <= j
                    < ms[targets[q]->Some_0 as int].definitions.len() ==> defs.contains(
                    #[trigger] ms[targets[q]->Some_0 as int].definitions[j],
                )
        }),
{
    let mv = root_first(ms, root);
    let f = flat(mv);
    let n0 = mv[0].imports.len() as int;
    let seeds = chosen(mv, root, targets, n0)->Ok_0;
    let c = closure(f, seeds);
    let allowed = def_names(mv[0]) + c;
    let defs = kept_of(mv, allowed, mv.len() as int);
    lemma_root_first_index(ms, root, root);
    assert(mv[0] == ms[root]);
    assert(link_spec(ms, root, targets)->Ok_0.definitions == defs);
    assert forall|j: int| 0 <= j < ms[root].definitions.len() implies defs.contains(#[trigger] ms[root].definitions[j]) by {
        let names = mv[0].definitions.map_values(|t: TypeModel| t.ident);
        assert(names[j] == mv[0].definitions[j].ident);
        assert(def_names(mv[0]).contains(mv[0].definitions[j].ident));
        lemma_kept_complete(mv, allowed, mv.len() as int, 0, j);
    }
    lemma_chosen_grow(mv, root, targets, n0);
    let imps = ms[root].imports;
    assert forall|q: int, x: Seq<char>|
        0 <= q < imps.len() && !imps[q].import_all && #[trigger] imps[q].types.contains(x) implies exists|j: int|
            0 <= j < defs.len() && (#[trigger] defs[j]).ident == x by {
        assert(targets[q] is Some);
        let m = moved_index(root, targets[q]->Some_0 as int);
        assert(owner(f, x) == Some(m));
        lemma_first_named_some(f, x, 0);
        let i = first_named(f, x, 0)->Some_0;
        lemma_flat_entry(mv, mv.len() as int, i);
        let mi = f[i].0;
        let j = choose|j: int| 0 <= j < mv[mi].definitions.len() && mv[mi].definitions[j] == f[i].1;
        assert(seeds.contains(x));
        assert(allowed.contains(x));
        lemma_kept_complete(mv, allowed, mv.len() as int, mi, j);
        let y = mv[mi].definitions[j];
        let jj = choose|jj: int| 0 <= jj < defs.len() && defs[jj] == y;
        assert(defs[jj].ident == x);
    }
    assert forall|q: int, j: int|
        0 <= q < imps.len() && imps[q].import_all && targets[q] is Some && 0 <= j
            < ms[targets[q]->Some_0 as int].definitions.len() implies defs.contains(
            #[trigger] ms[targets[q]->Some_0 as int].definitions[j],
        ) by {
        let t = targets[q]->Some_0 as int;
        lemma_root_first_index(ms, root, t);
        let m = moved_index(root, t);
        assert(mv[m] == ms[t]);
        let names = mv[m].definitions.map_values(|d: TypeModel| d.ident);
        assert(names[j] == mv[m].definitions[j].ident);
        assert(def_names(mv[m]).contains(mv[m].definitions[j].ident));
        assert(allowed.contains(mv[m].definitions[j].ident));
        lemma_kept_complete(mv, allowed, mv.len() as int, m, j);
    }
}

/// Declaration body `k` names the type `n`: as an alias's target, a base, tag, count or
/// element type, a constant's type, or the type of one of its members.
pub open spec fn mentions(k: KindModel, n: Seq<char>) -> bool {
    match k {
        KindModel::Alias { other } => other == n,
        KindModel::Pack { members } => exists|j: int| 0 <= j < members.len() && (#[trigger] members[j]).ty == n,
        KindModel::Enum { ty, .. } => ty == n,
        KindModel::Bitfld { ty, members } => ty == n || exists|j: int|
            0 <= j < members.len() && (#[trigger] members[j]).ty == n,
        KindModel::Variant { ty, members } => ty == n || exists|j: int|
            0 <= j < members.len() && (#[trigger] members[j]).ty == n,
        KindModel::Sequence { members } => exists|j: int| 0 <= j < members.len() && (#[trigger] members[j]).ty == n,
        KindModel::DynamicArray { size_type, value_type } => size_type == n || value_type == n,
        KindModel::FixedArray { value_type, .. } => value_type == n,
        KindModel::Const { ty, .. } => ty == n,
    }
}

/// Linking keeps what the kept definitions need: each name a kept definition depends on
/// is builtin, kept, or defined by none of the loaded modules.
proof fn lemma_linked_deps_available(ms: Seq<ModuleModel>, root: int, targets: Seq<Option<usize>>)
    requires
        0 <= root < ms.len(),
        link_spec(ms, root, targets) is Ok,
        least_closure(
            flat(root_first(ms, root)),
            chosen(root_first(ms, root), root, targets, root_first(ms, root)[0].imports.len() as int)->Ok_0,
            closure(
                flat(root_first(ms, root)),
                chosen(root_first(ms, root), root, targets, root_first(ms, root)[0].imports.len() as int)->Ok_0,
            ),
        ),
    ensures
        ({
            let defs = link_spec(ms, root, targets)->Ok_0.definitions;
            &&& forall|i: int, n: Seq<char>|
                0 <= i < defs.len() && #[trigger] deps_spec(defs[i].kind).contains(n) ==> available_in(defs, ms, n)
            &&& forall|i: int, n: Seq<char>|
                0 <= i < defs.len() && #[trigger] mentions(defs[i].kind, n) ==> available_in(defs, ms, n)
            &&& forall|i: int, k: int|
                0 <= i < defs.len() && defs[i].kind is Sequence && 0 <= k < defs[i].kind->Sequence_members.len()
                    ==> available_in(defs, ms, #[trigger] defs[i].kind->Sequence_members[k].ty)
            &&& forall|i: int, k: int|
                0 <= i < defs.len() && defs[i].kind is Pack && 0 <= k < defs[i].kind->Pack_members.len()
                    ==> available_in(defs, ms, #[trigger] defs[i].kind->Pack_members[k].ty)
        }),
{
    let mv = root_first(ms, root);
    let f = flat(mv);
    let seeds = chosen(mv, root, targets, mv[0].imports.len() as int)->Ok_0;
    let c = closure(f, seeds);
    let allowed = def_names(mv[0]) + c;
    let defs = kept_of(mv, allowed, mv.len() as int);
    assert(link_spec(ms, root, targets)->Ok_0.definitions == defs);
    lemma_first_dup_none(f, 0);
    assert forall|i: int, j: int| 0 <= i < j < f.len() implies #[trigger] f[i].1.ident != #[trigger] f[j].1.ident by {
        if f[i].1.ident == f[j].1.ident {
            assert(first_named(f, f[i].1.ident, 0) == Some(i));
            assert(first_named(f, f[j].1.ident, 0) == Some(j));
        }
    }
    lemma_kept_distinct(mv, allowed, mv.len() as int);
    lemma_unimported_none(mv[0].definitions, allowed, 0);
    assert forall|i: int, n: Seq<char>|
        0 <= i < defs.len() && #[trigger] deps_spec(defs[i].kind).contains(n) implies available_in(defs, ms, n) by {
        let x = defs[i];
        assert(defs.contains(x));
        lemma_kept_allowed(mv, allowed, mv.len() as int, x);
        let p = choose|p: int| 0 <= p < f.len() && #[trigger] f[p].1 == x;
        assert(first_named(f, f[p].1.ident, 0) == Some(p));
        let deps = deps_spec(x.kind);
        let kd = choose|kd: int| 0 <= kd < deps.len() && deps[kd] == n;
        if c.contains(x.ident) {
            assert(deps_spec(f[p].1.kind).to_set().subset_of(c));
            assert(deps.to_set().contains(n));
            assert(allowed.contains(n));
        } else {
            assert(def_names(mv[0]).contains(x.ident));
            let names = mv[0].definitions.map_values(|t: TypeModel| t.ident);
            let q = choose|q: int| 0 <= q < names.len() && names[q] == x.ident;
            lemma_flat_step(mv, 0, q);
            lemma_flat_len(mv, 0);
            assert(f[q] == flat_of(mv, 1)[q]);
            assert(f[q].1 == mv[0].definitions[q]);
            assert(q == p);
            lemma_unknown_none(deps_spec(mv[0].definitions[q].kind), allowed, 0);
            assert(allowed.contains(deps[kd]) || builtin_type_name(deps[kd]));
        }
        if !builtin_type_name(n) && exists|a: int, b: int|
            0 <= a < ms.len() && 0 <= b < ms[a].definitions.len() && (#[trigger] ms[a].definitions[b]).ident == n {
            let (a, b) = choose|a: int, b: int|
                0 <= a < ms.len() && 0 <= b < ms[a].definitions.len() && (#[trigger] ms[a].definitions[b]).ident == n;
            lemma_root_first_index(ms, root, a);
            let mm = moved_index(root, a);
            lemma_kept_complete(mv, allowed, mv.len() as int, mm, b);
            let y = mv[mm].definitions[b];
            let jj = choose|jj: int| 0 <= jj < defs.len() && defs[jj] == y;
            assert(defs[jj].ident == n);
        }
    }
    assert forall|i: int, n: Seq<char>|
        0 <= i < defs.len() && #[trigger] mentions(defs[i].kind, n) implies available_in(defs, ms, n) by {
        let kd = defs[i].kind;
        let deps = deps_spec(kd);
        match kd {
            KindModel::Pack { members } => {
                let j = choose|j: int| 0 <= j < members.len() && (#[trigger] members[j]).ty == n;
                assert(deps[j] == n);
            },
            KindModel::Sequence { members } => {
                let j = choose|j: int| 0 <= j < members.len() && (#[trigger] members[j]).ty == n;
                assert(deps[j] == n);
            },
            KindModel::Bitfld { ty, members } => {
                if ty == n {
                    assert(deps[0] == n);
                } else {
                    let j = choose|j: int| 0 <= j < members.len() && (#[trigger] members[j]).ty == n;
                    assert(deps[j + 1] == n);
                }
            },
            KindModel::Variant { ty, members } => {
                if ty == n {
                    assert(deps[0] == n);
                } else {
                    let j = choose|j: int| 0 <= j < members.len() && (#[trigger] members[j]).ty == n;
                    assert(deps[j + 1] == n);
                }
            },
            KindModel::DynamicArray { size_type, value_type } => {
                if size_type == n {
                    assert(deps[0] == n);
                } else {
                    assert(deps[1] == n);
                }
            },
            _ => {
                assert(deps[0] == n);
            },
        }
        assert(deps.contains(n));
    }
    assert forall|i: int, k: int|
        0 <= i < defs.len() && defs[i].kind is Sequence && 0 <= k < defs[i].kind->Sequence_members.len()
            implies available_in(defs, ms, #[trigger] defs[i].kind->Sequence_members[k].ty) by {
        let ms_ = defs[i].kind->Sequence_members;
        assert(deps_spec(defs[i].kind)[k] == ms_[k].ty);
        assert(deps_spec(defs[i].kind).contains(ms_[k].ty));
    }
    assert forall|i: int, k: int|
        0 <= i < defs.len() && defs[i].kind is Pack && 0 <= k < defs[i].kind->Pack_members.len()
            implies available_in(defs, ms, #[trigger] defs[i].kind->Pack_members[k].ty) by {
        let ms_ = defs[i].kind->Pack_members;
        assert(deps_spec(defs[i].kind)[k] == ms_[k].ty);
        assert(deps_spec(defs[i].kind).contains(ms_[k].ty));
    }
}

// ---------------------------------------------------------------------------
// Walking the imports
// ---------------------------------------------------------------------------
/// What to do with a module reached while walking the imports.
#[derive(Debug, Clone, Copy, PartialEq, Eq, Structural)]
pub enum WalkStep {
    /// It is loaded already: nothing to do.
    Loaded,
    /// It is being loaded further up: the imports form a cycle.
    Cycle,
    /// Read and parse it, walk its imports, then call `leave`.
    Load,
}

/// The state of a depth-first walk over the imports, keyed by canonical paths: the
/// modules loaded, and those being loaded.
pub struct ImportWalk {
    loaded: Vec<String>,
    visiting: Vec<String>,
}

pub open spec fn strings_model(v: Seq<String>) -> Set<Seq<char>> {
    v.map_values(|x: String| x@).to_set()
}

fn contains_str(v: &Vec<String>, s: &str) -> (b: bool)
    ensures
        b == strings_model(v@).contains(s@),
{
    let mut i: usize = 0;
    while i < v.len()
        invariant
            i <= v@.len(),
            forall|k: int| 0 <= k < i ==> v@[k]@ != s@,
        decreases v.len() - i,
    {
        if crate::text::str_eq(v[i].as_str(), s) {
            assert(v@.map_values(|x: String| x@)[i as int] == s@);
            return true;
        }
        i = i + 1;
    }
    let ghost m = v@.map_values(|x: String| x@);
    assert(!m.contains(s@)) by {
        if m.contains(s@) {
            let k = choose|k: int| 0 <= k < m.len() && #[trigger] m[k] == s@;
            assert(v@[k]@ == s@);
        }
    }
    false
}

impl ImportWalk {
    /// The paths of the modules loaded.
    pub closed spec fn loaded(&self) -> Set<Seq<char>> {
        strings_model(self.loaded@)
    }

    /// The paths of the modules being loaded.
    pub closed spec fn visiting(&self) -> Set<Seq<char>> {
        strings_model(self.visiting@)
    }

    /// A walk that has loaded nothing.
    pub fn new() -> (r: Self)
        ensures
            r.loaded() == Set::<Seq<char>>::empty(),
            r.visiting() == Set::<Seq<char>>::empty(),
    {
        let r = ImportWalk { loaded: Vec::new(), visiting: Vec::new() };
        assert(strings_model(r.loaded@) =~= Set::<Seq<char>>::empty());
        assert(strings_model(r.visiting@) =~= Set::<Seq<char>>::empty());
        r
    }

    /// Reaching the module at `path`: skip it when it is loaded, report a cycle when it is
    /// being loaded, and otherwise mark it as being loaded.
    pub fn enter(&mut self, path: &str) -> (r: WalkStep)
        ensures
            old(self).loaded().contains(path@) ==> r == WalkStep::Loaded && final(self).loaded() == old(self).loaded()
                && final(self).visiting() == old(self).visiting(),
            !old(self).loaded().contains(path@) && old(self).visiting().contains(path@) ==> r == WalkStep::Cycle
                && final(self).loaded() == old(self).loaded() && final(self).visiting() == old(self).visiting(),
            !old(self).loaded().contains(path@) && !old(self).visiting().contains(path@) ==> r == WalkStep::Load
                && final(self).loaded() == old(self).loaded() && final(self).visiting() == old(self).visiting().insert(
                path@,
            ),
    {
        if contains_str(&self.loaded, path) {
            return WalkStep::Loaded;
        }
        if contains_str(&self.visiting, path) {
            return WalkStep::Cycle;
        }
        let ghost v0 = self.visiting@;
        self.visiting.push(path.to_string());
        proof {
            assert(self.visiting@.map_values(|x: String| x@) =~= v0.map_values(|x: String| x@).push(path@));
            lemma_seq_push_set(v0.map_values(|x: String| x@), path@);
        }
        WalkStep::Load
    }

    /// The module at `path` and its imports are loaded.
    pub fn leave(&mut self, path: &str)
        ensures
            final(self).loaded() == old(self).loaded().insert(path@),
            final(self).visiting() == old(self).visiting().remove(path@),
    {
        let ghost l0 = self.loaded@;
        self.loaded.push(path.to_string());
        proof {
            assert(self.loaded@.map_values(|x: String| x@) =~= l0.map_values(|x: String| x@).push(path@));
            lemma_seq_push_set(l0.map_values(|x: String| x@), path@);
        }
        let ghost old_v = self.visiting@;
        let mut kept: Vec<String> = Vec::new();
        let mut i: usize = 0;
        while i < self.visiting.len()
            invariant
                i <= old_v.len(),
                self.visiting@ == old_v,
                strings_model(kept@) == strings_model(old_v.take(i as int)).remove(path@),
            decreases self.visiting.len() - i,
        {
            proof {
                assert(old_v.take(i as int + 1).map_values(|x: String| x@) =~= old_v.take(i as int).map_values(|x: String| x@).push(old_v[i as int]@));
                lemma_seq_push_set(old_v.take(i as int).map_values(|x: String| x@), old_v[i as int]@);
            }
            if !crate::text::str_eq(self.visiting[i].as_str(), path) {
                let c = self.visiting[i].clone();
                let ghost k0 = kept@;
                kept.push(c);
                proof {
                    assert(kept@.map_values(|x: String| x@) =~= k0.map_values(|x: String| x@).push(c@));
                    lemma_seq_push_set(k0.map_values(|x: String| x@), c@);
                    assert(strings_model(kept@) =~= strings_model(old_v.take(i as int + 1)).remove(path@));
                }
            } else {
                proof {
                    assert(strings_model(kept@) =~= strings_model(old_v.take(i as int + 1)).remove(path@));
                }
            }
            i = i + 1;
        }
        proof {
            assert(old_v.take(i as int) =~= old_v);
        }
        self.visiting = kept;
    }
}


// ---------------------------------------------------------------------------
// Several inputs in one module
// ---------------------------------------------------------------------------
/// The declarations of `ms`, module after module.
pub open spec fn gathered(ms: Seq<ModuleModel>) -> Seq<TypeModel>
    decreases ms.len(),
{
    if ms.len() == 0 {
        Seq::empty()
    } else {
        ms[0].definitions + gathered(ms.drop_first())
    }
}

/// Gathers several loaded modules into one output module named after `first`: its
/// declarations are those of `first`, then those of each of `rest` in order, and it keeps
/// the source and imports of `first`. Names repeated across the inputs are left for
/// `compile` to report.
pub fn gather_modules(first: Module, rest: Vec<Module>) -> (r: Module)
    ensures
        r@.name == first@.name,
        r@.source == first@.source,
        r@.imports == first@.imports,
        r@.definitions == first@.definitions + gathered(modules_model(rest@)),
{
    let ghost orig = modules_model(rest@);
    let ghost n = rest@.len() as int;
    let mut rest = rest;
    let mut tail: Vec<Type> = Vec::new();
    assert(orig.subrange(n, n) =~= Seq::<ModuleModel>::empty());
    while rest.len() > 0
        invariant
            n == orig.len(),
            rest@.len() <= n,
            forall|k: int| 0 <= k < rest@.len() ==> (#[trigger] rest@[k])@ == orig[k],
            super::ast::types_model(tail@) == gathered(orig.subrange(rest@.len() as int, n)),
        decreases rest.len(),
    {
        let ghost len = rest@.len() as int;
        let ghost t0 = super::ast::types_model(tail@);
        let mut m = rest.pop().unwrap();
        assert(m@ == orig[len - 1]);
        let ghost d0 = super::ast::types_model(m.definitions@);
        m.definitions.append(&mut tail);
        tail = m.definitions;
        proof {
            assert(super::ast::types_model(tail@) =~= d0 + t0);
            assert(orig.subrange(len - 1, n).drop_first() =~= orig.subrange(len, n));
            assert(orig.subrange(len - 1, n)[0] == orig[len - 1]);
        }
    }
    assert(orig.subrange(0, n) =~= orig);
    let mut out = first;
    let ghost f0 = super::ast::types_model(out.definitions@);
    let ghost t0 = super::ast::types_model(tail@);
    out.definitions.append(&mut tail);
    assert(super::ast::types_model(out.definitions@) =~= f0 + t0);
    out
}

} // verus!
