//! The whole Rust source generated for a world: a preamble of helpers, then a `read`
//! module and a `write` module.
use vstd::prelude::*;

use super::rust::{bits_ok, ranges_ok, world_ready, GlobalOptions, RustContext};
use super::rust_defs::{
    emit_read_type_definition, emit_write_type_definition, read_def_spec, write_def_spec,
};
use super::rust_impls::{emit_read_impl, read_impl_spec};
use super::rust_writes::{emit_write_impl, write_impl_spec};
use super::{cat2, cat3, lemma_braces, put, CodeWriter};
use crate::compile::types::{def_of, has_id, KindModel, TypeID, TypeModel, World, WorldModel};

verus! {

/// The two modules of the generated code.
#[derive(Debug, Clone, Copy, PartialEq, Eq, Structural)]
pub enum RustFlavor {
    Read,
    Write,
}

impl RustFlavor {
    pub open spec fn name_spec(self) -> Seq<char> {
        match self {
            RustFlavor::Read => "read"@,
            RustFlavor::Write => "write"@,
        }
    }

    /// The module name used for this flavor.
    pub fn module_name(self) -> (r: &'static str)
        ensures
            r@ == self.name_spec(),
    {
        match self {
            RustFlavor::Read => "read",
            RustFlavor::Write => "write",
        }
    }
}

/// The primitive types that get reader and writer helpers, in the order they are written.
pub open spec fn helper_types() -> Seq<Seq<char>> {
    seq!["u8"@, "i8"@, "u16"@, "i16"@, "u32"@, "i32"@, "u64"@, "i64"@, "f32"@, "f64"@]
}

/// The little-endian reader helper for `ty`.
pub open spec fn read_helper(t: Seq<char>, d: nat, ty: Seq<char>) -> Seq<char> {
    let t1 = put(
        put(put(t, d, "#[inline]"@), d, "fn read_"@ + ty + "<R: Read>(reader: &mut R) -> io::Result<"@ + ty + ">"@),
        d,
        "{"@,
    );
    let t2 = put(
        put(put(t1, d + 1, "let mut buf = [0u8; std::mem::size_of::<"@ + ty + ">()];"@), d + 1, "reader.read_exact(&mut buf)?;"@),
        d + 1,
        "Ok("@ + ty + "::from_le_bytes(buf))"@,
    );
    put(t2, d, "}"@)
}

/// The little-endian writer helper for `ty`.
pub open spec fn write_helper(t: Seq<char>, d: nat, ty: Seq<char>) -> Seq<char> {
    put(
        put(
            put(
                put(put(t, d, "#[inline]"@), d, "fn write_"@ + ty + "<W: Write>(writer: &mut W, value: "@ + ty + ") -> io::Result<()>"@),
                d,
                "{"@,
            ),
            d + 1,
            "writer.write_all(&value.to_le_bytes())"@,
        ),
        d,
        "}"@,
    )
}

/// The reader helpers (`write` false) or writer helpers (`write` true) of the first `k`
/// helper types.
pub open spec fn helpers(t: Seq<char>, d: nat, write: bool, k: int) -> Seq<char>
    decreases k,
{
    if k <= 0 || k > helper_types().len() {
        t
    } else {
        let t1 = helpers(t, d, write, k - 1);
        if write {
            write_helper(t1, d, helper_types()[k - 1])
        } else {
            read_helper(t1, d, helper_types()[k - 1])
        }
    }
}

/// The imports and helpers that open the generated source.
pub open spec fn preamble(t: Seq<char>, d: nat) -> Seq<char> {
    let t1 = put(
        put(put(put(t, d, "// Generated by jaw. Do not edit."@), d, "use std::io::{self, Read, Write};"@), d, "use std::convert::TryInto;"@),
        d,
        ""@,
    );
    let t2 = put(
        put(
            put(
                put(put(t1, d, "fn invalid_data(msg: impl Into<String>) -> io::Error"@), d, "{"@),
                d + 1,
                "io::Error::new(io::ErrorKind::InvalidData, msg.into())"@,
            ),
            d,
            "}"@,
        ),
        d,
        ""@,
    );
    let t3 = put(helpers(t2, d, false, 10), d, ""@);
    put(helpers(t3, d, true, 10), d, ""@)
}

/// The definition of `id` in the module of `flavor`.
#[verifier::opaque]
pub open spec fn def_step(w: WorldModel, flavor: RustFlavor, t: Seq<char>, d: nat, id: TypeID) -> Result<
    Seq<char>,
    Seq<char>,
> {
    match flavor {
        RustFlavor::Read => read_def_spec(w, t, d, id),
        RustFlavor::Write => write_def_spec(w, t, d, id),
    }
}

/// The function of `id` in the module of `flavor`.
#[verifier::opaque]
pub open spec fn impl_step(w: WorldModel, guard: Option<u64>, flavor: RustFlavor, t: Seq<char>, d: nat, id: TypeID) -> Result<
    Seq<char>,
    Seq<char>,
> {
    match flavor {
        RustFlavor::Read => read_impl_spec(w, guard, t, d, id),
        RustFlavor::Write => write_impl_spec(w, t, d, id),
    }
}

/// The definitions of the first `k` identifiers of `ids`; the first failure is the result.
pub open spec fn defs_of(w: WorldModel, flavor: RustFlavor, t: Seq<char>, d: nat, ids: Seq<TypeID>, k: int) -> Result<
    Seq<char>,
    Seq<char>,
>
    decreases k,
{
    if k <= 0 || k > ids.len() {
        Ok(t)
    } else {
        match defs_of(w, flavor, t, d, ids, k - 1) {
            Err(e) => Err(e),
            Ok(t1) => def_step(w, flavor, t1, d, ids[k - 1]),
        }
    }
}

/// The functions of the first `k` identifiers of `ids`; the first failure is the result.
pub open spec fn impls_of(
    w: WorldModel,
    guard: Option<u64>,
    flavor: RustFlavor,
    t: Seq<char>,
    d: nat,
    ids: Seq<TypeID>,
    k: int,
) -> Result<Seq<char>, Seq<char>>
    decreases k,
{
    if k <= 0 || k > ids.len() {
        Ok(t)
    } else {
        match impls_of(w, guard, flavor, t, d, ids, k - 1) {
            Err(e) => Err(e),
            Ok(t1) => impl_step(w, guard, flavor, t1, d, ids[k - 1]),
        }
    }
}

/// The module of `flavor`: every definition in dependency order, then every function in
/// the same order.
pub open spec fn module_spec(w: WorldModel, guard: Option<u64>, flavor: RustFlavor, t: Seq<char>, d: nat) -> Result<
    Seq<char>,
    Seq<char>,
> {
    let t1 = put(put(put(put(t, d, "pub mod "@ + flavor.name_spec()), d, "{"@), d + 1, "use super::*;"@), d + 1, ""@);
    match defs_of(w, flavor, t1, d + 1, w.sorted, w.sorted.len() as int) {
        Err(e) => Err(e),
        Ok(t2) => match impls_of(w, guard, flavor, t2, d + 1, w.sorted, w.sorted.len() as int) {
            Err(e) => Err(e),
            Ok(t3) => Ok(put(t3, d, "}"@)),
        },
    }
}

/// The Rust source generated for `w` with the array guard `guard`.
pub open spec fn rust_source(w: WorldModel, guard: Option<u64>) -> Result<Seq<char>, Seq<char>> {
    let t0 = put(preamble(Seq::empty(), 0), 0, ""@);
    match module_spec(w, guard, RustFlavor::Read, t0, 0) {
        Err(e) => Err(e),
        Ok(t1) => module_spec(w, guard, RustFlavor::Write, put(t1, 0, ""@), 0),
    }
}


/// Writes the imports and helpers that open the generated source.
pub fn emit_preamble(out: &mut CodeWriter)
    requires
        old(out).braced(),
        old(out).depth() + 4 < usize::MAX,
    ensures
        final(out).depth() == old(out).depth(),
        final(out).same_marks(old(out)),
        final(out).text() == preamble(old(out).text(), old(out).depth()),
{
    let ghost d = out.depth();
    proof {
        lemma_braces();
    }
    out.wln("// Generated by jaw. Do not edit.");
    out.wln("use std::io::{self, Read, Write};");
    out.wln("use std::convert::TryInto;");
    out.newline();
    out.wln("fn invalid_data(msg: impl Into<String>) -> io::Error");
    out.indent();
    out.wln("io::Error::new(io::ErrorKind::InvalidData, msg.into())");
    out.dedent();
    out.newline();
    let names: Vec<&str> = vec!["u8", "i8", "u16", "i16", "u32", "i32", "u64", "i64", "f32", "f64"];
    proof {
        assert(names@.len() == 10);
        assert(forall|k: int| 0 <= k < 10 ==> (#[trigger] names@[k])@ == helper_types()[k]);
    }
    let ghost t2 = out.text();
    let mut i: usize = 0;
    while i < names.len()
        invariant
            names@.len() == 10,
            forall|k: int| 0 <= k < 10 ==> (#[trigger] names@[k])@ == helper_types()[k],
            out.depth() == d,
            out.braced(),
            d + 4 < usize::MAX,
            i <= 10,
            out.text() == helpers(t2, d, false, i as int),
        decreases names.len() - i,
    {
        let ty = names[i];
        proof {
            lemma_braces();
        }
        assert(ty@ == helper_types()[i as int]);
        out.wln("#[inline]");
        let l = cat3(cat3("fn read_", ty, "<R: Read>(reader: &mut R) -> io::Result<").as_str(), ty, ">");
        assert(l@ =~= "fn read_"@ + ty@ + "<R: Read>(reader: &mut R) -> io::Result<"@ + ty@ + ">"@);
        out.wln(&l);
        out.indent();
        out.wln(&cat3("let mut buf = [0u8; std::mem::size_of::<", ty, ">()];"));
        out.wln("reader.read_exact(&mut buf)?;");
        out.wln(&cat3("Ok(", ty, "::from_le_bytes(buf))"));
        out.dedent();
        i = i + 1;
    }
    out.newline();
    let ghost t3 = out.text();
    let mut i: usize = 0;
    while i < names.len()
        invariant
            names@.len() == 10,
            forall|k: int| 0 <= k < 10 ==> (#[trigger] names@[k])@ == helper_types()[k],
            out.depth() == d,
            out.braced(),
            d + 4 < usize::MAX,
            i <= 10,
            out.text() == helpers(t3, d, true, i as int),
        decreases names.len() - i,
    {
        let ty = names[i];
        proof {
            lemma_braces();
        }
        assert(ty@ == helper_types()[i as int]);
        out.wln("#[inline]");
        let l = cat3(cat3("fn write_", ty, "<W: Write>(writer: &mut W, value: ").as_str(), ty, ") -> io::Result<()>");
        assert(l@ =~= "fn write_"@ + ty@ + "<W: Write>(writer: &mut W, value: "@ + ty@ + ") -> io::Result<()>"@);
        out.wln(&l);
        out.indent();
        out.wln("writer.write_all(&value.to_le_bytes())");
        out.dedent();
        i = i + 1;
    }
    out.newline();
}


fn emit_def_step(ctx: &RustContext, out: &mut CodeWriter, flavor: RustFlavor, id: TypeID, ty: &crate::compile::types::Type) -> (r: Result<
    (),
    String,
>)
    requires
        ctx.ready(),
        has_id(ctx.world_model().defs, id),
        ty@ == def_of(ctx.world_model().defs, id),
        old(out).braced(),
        old(out).depth() + 8 < usize::MAX,
    ensures
        final(out).depth() == old(out).depth(),
        final(out).same_marks(old(out)),
        match (r, def_step(ctx.world_model(), flavor, old(out).text(), old(out).depth(), id)) {
            (Ok(_), Ok(t)) => final(out).text() == t,
            (Err(a), Err(b)) => a@ == b,
            _ => false,
        },
{
    proof {
        reveal(def_step);
    }
    match flavor {
        RustFlavor::Read => emit_read_type_definition(ctx, out, id, ty),
        RustFlavor::Write => emit_write_type_definition(ctx, out, id, ty),
    }
}

fn emit_impl_step(ctx: &RustContext, out: &mut CodeWriter, flavor: RustFlavor, id: TypeID, ty: &crate::compile::types::Type) -> (r: Result<
    (),
    String,
>)
    requires
        ctx.ready(),
        bits_ok(ctx.world_model()),
        has_id(ctx.world_model().defs, id),
        ty@ == def_of(ctx.world_model().defs, id),
        old(out).braced(),
        old(out).depth() + 8 < usize::MAX,
    ensures
        final(out).depth() == old(out).depth(),
        final(out).same_marks(old(out)),
        match (r, impl_step(ctx.world_model(), ctx.guard(), flavor, old(out).text(), old(out).depth(), id)) {
            (Ok(_), Ok(t)) => final(out).text() == t,
            (Err(a), Err(b)) => a@ == b,
            _ => false,
        },
{
    proof {
        reveal(impl_step);
    }
    match flavor {
        RustFlavor::Read => emit_read_impl(ctx, out, id, ty),
        RustFlavor::Write => emit_write_impl(ctx, out, id, ty),
    }
}

pub proof fn lemma_defs_err(w: WorldModel, flavor: RustFlavor, t: Seq<char>, d: nat, ids: Seq<TypeID>, k: int, n: int)
    requires
        0 <= k <= n <= ids.len(),
        defs_of(w, flavor, t, d, ids, k) is Err,
    ensures
        defs_of(w, flavor, t, d, ids, n) == defs_of(w, flavor, t, d, ids, k),
    decreases n - k,
{
    if n > k {
        lemma_defs_err(w, flavor, t, d, ids, k, n - 1);
    }
}

pub proof fn lemma_impls_err(
    w: WorldModel,
    guard: Option<u64>,
    flavor: RustFlavor,
    t: Seq<char>,
    d: nat,
    ids: Seq<TypeID>,
    k: int,
    n: int,
)
    requires
        0 <= k <= n <= ids.len(),
        impls_of(w, guard, flavor, t, d, ids, k) is Err,
    ensures
        impls_of(w, guard, flavor, t, d, ids, n) == impls_of(w, guard, flavor, t, d, ids, k),
    decreases n - k,
{
    if n > k {
        lemma_impls_err(w, guard, flavor, t, d, ids, k, n - 1);
    }
}

/// Writes the module of `flavor`: the definitions of all types in dependency order, then
/// their functions.
pub fn emit_module(ctx: &RustContext, out: &mut CodeWriter, flavor: RustFlavor) -> (r: Result<(), String>)
    requires
        ctx.ready(),
        bits_ok(ctx.world_model()),
        old(out).braced(),
        old(out).depth() + 16 < usize::MAX,
    ensures
        final(out).depth() == old(out).depth(),
        final(out).same_marks(old(out)),
        match (r, module_spec(ctx.world_model(), ctx.guard(), flavor, old(out).text(), old(out).depth())) {
            (Ok(_), Ok(t)) => final(out).text() == t,
            (Err(a), Err(b)) => a@ == b,
            _ => false,
        },
{
    let ghost w = ctx.world_model();
    let ghost g = ctx.guard();
    let ghost d = out.depth();
    proof {
        lemma_braces();
    }
    let m = flavor.module_name();
    out.wln(&cat2("pub mod ", m));
    out.indent();
    out.wln("use super::*;");
    out.newline();
    let ghost t1 = out.text();
    let types = ctx.types();
    let ghost ids = w.sorted;
    let mut i: usize = 0;
    while i < types.len()
        invariant
            ctx.ready(),
            bits_ok(w),
            w == ctx.world_model(),
            ids == w.sorted,
            types@.len() == ids.len(),
            forall|k: int|
                0 <= k < types@.len() ==> (#[trigger] types@[k]).0 == ids[k] && types@[k].1@ == def_of(w.defs, types@[k].0)
                    && has_id(w.defs, types@[k].0),
            out.depth() == d + 1,
            out.braced(),
            old(out).braced(),
            d == old(out).depth(),
            g == ctx.guard(),
            t1 == put(put(put(put(old(out).text(), d, "pub mod "@ + flavor.name_spec()), d, "{"@), d + 1, "use super::*;"@), d + 1, ""@),
            d + 16 < usize::MAX,
            i <= types.len(),
            defs_of(w, flavor, t1, d + 1, ids, i as int) == Ok::<Seq<char>, Seq<char>>(out.text()),
        decreases types.len() - i,
    {
        let (id, ty) = types[i];
        let res = emit_def_step(ctx, out, flavor, id, ty);
        match res {
            Ok(()) => {},
            Err(e) => {
                proof {
                    lemma_defs_err(w, flavor, t1, d + 1, ids, i + 1, ids.len() as int);
                    lemma_braces();
                }
                out.dedent();
                return Err(e);
            },
        }
        i = i + 1;
    }
    let ghost t2 = out.text();
    let mut i: usize = 0;
    assert(defs_of(w, flavor, t1, d + 1, ids, ids.len() as int) == Ok::<Seq<char>, Seq<char>>(t2));
    assert(defs_of(w, flavor, t1, d + 1, ids, ids.len() as int) == Ok::<Seq<char>, Seq<char>>(t2));
    while i < types.len()
        invariant
            ctx.ready(),
            bits_ok(w),
            w == ctx.world_model(),
            g == ctx.guard(),
            ids == w.sorted,
            types@.len() == ids.len(),
            forall|k: int|
                0 <= k < types@.len() ==> (#[trigger] types@[k]).0 == ids[k] && types@[k].1@ == def_of(w.defs, types@[k].0)
                    && has_id(w.defs, types@[k].0),
            out.depth() == d + 1,
            out.braced(),
            old(out).braced(),
            d == old(out).depth(),
            g == ctx.guard(),
            t1 == put(put(put(put(old(out).text(), d, "pub mod "@ + flavor.name_spec()), d, "{"@), d + 1, "use super::*;"@), d + 1, ""@),
            d + 16 < usize::MAX,
            i <= types.len(),
            impls_of(w, g, flavor, t2, d + 1, ids, i as int) == Ok::<Seq<char>, Seq<char>>(out.text()),
            defs_of(w, flavor, t1, d + 1, ids, ids.len() as int) == Ok::<Seq<char>, Seq<char>>(t2),
        decreases types.len() - i,
    {
        let (id, ty) = types[i];
        let res = emit_impl_step(ctx, out, flavor, id, ty);
        match res {
            Ok(()) => {},
            Err(e) => {
                proof {
                    lemma_impls_err(w, g, flavor, t2, d + 1, ids, i + 1, ids.len() as int);
                    lemma_braces();
                }
                out.dedent();
                return Err(e);
            },
        }
        i = i + 1;
    }
    out.dedent();
    Ok(())
}

/// The Rust source for `world`: the helpers, then the `read` module with owned types and
/// `read_*` functions, then the `write` module with borrowed views and `write_*`
/// functions.
pub fn emit(world: &World, options: &GlobalOptions) -> (r: Result<String, String>)
    requires
        world_ready(world@),
        bits_ok(world@),
    ensures
        match (r, rust_source(world@, options.guard_array_size)) {
            (Ok(a), Ok(b)) => a@ == b,
            (Err(a), Err(b)) => a@ == b,
            _ => false,
        },
{
    let ctx = match RustContext::new(world, options) {
        Ok(c) => c,
        Err(e) => {
            return Err(e);
        },
    };
    let mut out = CodeWriter::new("{", "}");
    proof {
        lemma_braces();
    }
    emit_preamble(&mut out);
    out.newline();
    emit_module(&ctx, &mut out, RustFlavor::Read)?;
    out.newline();
    emit_module(&ctx, &mut out, RustFlavor::Write)?;
    Ok(out.finish())
}


/// A bitfield whose members pass the checks from `i` on has, from `i` on, ranges that run
/// forward and end below `width`.
proof fn lemma_bit_members_ok(
    defs: Seq<(TypeID, TypeModel)>,
    ms: Seq<crate::compile::types::BitfldMemberModel>,
    i: int,
    width: u32,
    fuel: nat,
)
    requires
        0 <= i,
        crate::compile::verify::bit_members_problem(defs, ms, i, width, fuel) is None,
    ensures
        forall|j: int| i <= j < ms.len() ==> (#[trigger] ms[j]).range.start <= ms[j].range.end < width,
    decreases ms.len() - i,
{
    if i < ms.len() {
        lemma_bit_members_ok(defs, ms, i + 1, width, fuel);
    }
}

/// A definition that breaks no rule has bitfield ranges the backend can render.
proof fn lemma_def_ranges(defs: Seq<(TypeID, TypeModel)>, t: TypeModel, fuel: nat)
    requires
        crate::compile::verify::def_problem(defs, t, fuel) is None,
    ensures
        ranges_ok(t.kind),
{
    if let KindModel::Bitfld { underlying, members } = t.kind {
        let p = crate::compile::verify::bits_base(defs, underlying, fuel)->Ok_0;
        lemma_bit_members_ok(defs, members, 0, p.bit_count(), fuel);
        assert(p.bit_count() <= 64);
    }
}

/// The definitions from `i` on break no rule.
proof fn lemma_world_ranges(defs: Seq<(TypeID, TypeModel)>, i: int)
    requires
        0 <= i,
        crate::compile::verify::world_problem(defs, i) is None,
    ensures
        forall|j: int| i <= j < defs.len() ==> ranges_ok(#[trigger] defs[j].1.kind),
    decreases defs.len() - i,
{
    if i < defs.len() {
        lemma_def_ranges(defs, defs[i].1, defs.len() as nat);
        lemma_world_ranges(defs, i + 1);
    }
}

/// Every world that `compile` gives can be rendered: its definitions are closed, listed in
/// dependency order, and its bitfield ranges are those the backend expects.
pub proof fn lemma_compiled_world_renders(r: Result<World, crate::compile::error::CompileError>, m: crate::intermediate::ast::ModuleModel)
    requires
        crate::compile::compile_result(r, m),
        r is Ok,
    ensures
        world_ready(r->Ok_0@),
        bits_ok(r->Ok_0@),
{
    let w = r->Ok_0@;
    lemma_world_ranges(w.defs, 0);
}


/// Why a module could not be turned into Rust source.
#[derive(Debug)]
pub enum GenerateError {
    /// The module does not compile.
    Compile(crate::compile::error::CompileError),
    /// The backend cannot render the compiled world.
    Codegen(String),
}

/// Compiles `module` and renders the world as Rust source, as the command line does for
/// the Rust generator.
pub fn generate(module: crate::intermediate::ast::Module, options: &GlobalOptions) -> (r: Result<
    String,
    GenerateError,
>)
    requires
        module@.definitions.len() <= u32::MAX - 11,
    ensures
        match r {
            Err(GenerateError::Compile(e)) => crate::compile::compile_result(Err(e), module@),
            Err(GenerateError::Codegen(e)) => exists|w: World|
                crate::compile::compile_result(Ok(w), module@) && rust_source(w@, options.guard_array_size)
                    == Err::<Seq<char>, Seq<char>>(e@),
            Ok(s) => exists|w: World|
                crate::compile::compile_result(Ok(w), module@) && rust_source(w@, options.guard_array_size)
                    == Ok::<Seq<char>, Seq<char>>(s@),
        },
{
    let ghost m = module@;
    let world = match crate::compile::compile(module) {
        Ok(w) => w,
        Err(e) => {
            return Err(GenerateError::Compile(e));
        },
    };
    proof {
        lemma_compiled_world_renders(Ok(world), m);
    }
    match emit(&world, options) {
        Ok(s) => Ok(s),
        Err(e) => Err(GenerateError::Codegen(e)),
    }
}

} // verus!
