//! The whole C++ header generated for a world.
use vstd::prelude::*;

use super::cpp::{ns_name, CppContext, Namespace};
use super::cpp_defs::{def_spec, emit_forward_decls, emit_type_def, emit_type_def_fwd, fwd_def_spec, template_decl};
use super::cpp_impls::{emit_read_impl, emit_write_impl, read_impl_cpp, write_impl_cpp};
use super::rust::{bits_ok, kind_of, world_ready, GlobalOptions};
use super::rust_emit::{lemma_compiled_world_renders, GenerateError};
use super::{cat2, cat3, lemma_braces, put, rust_ident, CodeWriter};
use crate::compile::types::{def_of, has_id, KindModel, TypeID, TypeKind, World, WorldModel};

verus! {

/// Lines at depths relative to `d`: the first `k` of `ls`.
pub open spec fn table(t: Seq<char>, d: nat, ls: Seq<(nat, Seq<char>)>, k: int) -> Seq<char>
    decreases k,
{
    if k <= 0 || k > ls.len() {
        t
    } else {
        put(table(t, d, ls, k - 1), d + ls[k - 1].0, ls[k - 1].1)
    }
}

/// The helper templates every header holds, at depths relative to the namespace body.
pub open spec fn helper_lines() -> Seq<(nat, Seq<char>)> {
    seq![
        (0nat, "template <class Reader>"@),
        (0nat, "inline bool read_bytes(Reader& reader, void* dst, size_t n)"@),
        (0nat, "{"@),
        (1nat, "return reader.read_bytes(reinterpret_cast<std::byte*>(dst), n);"@),
        (0nat, "}"@),
        (0nat, ""@),
        (0nat, "template <class Writer>"@),
        (0nat, "inline bool write_bytes(Writer& writer, void const* src, size_t n)"@),
        (0nat, "{"@),
        (1nat, "return writer.write_bytes(reinterpret_cast<std::byte const*>(src), n);"@),
        (0nat, "}"@),
        (0nat, ""@),
        (0nat, "template <class Reader, class T>"@),
        (0nat, "inline bool read_scalar(Reader& reader, T& value)"@),
        (0nat, "{"@),
        (1nat, "static_assert(std::is_trivially_copyable_v<T>);"@),
        (1nat, "return read_bytes(reader, &value, sizeof(T));"@),
        (0nat, "}"@),
        (0nat, ""@),
        (0nat, "template <class Writer, class T>"@),
        (0nat, "inline bool write_scalar(Writer& writer, T const& value)"@),
        (0nat, "{"@),
        (1nat, "static_assert(std::is_trivially_copyable_v<T>);"@),
        (1nat, "return write_bytes(writer, &value, sizeof(T));"@),
        (0nat, "}"@),
        (0nat, ""@),
        (0nat, "template <class Reader, class T>"@),
        (0nat, "inline bool read_value(Reader& reader, T& value)"@),
        (0nat, "{"@),
        (1nat, "if constexpr (std::is_trivially_copyable_v<T> && std::is_arithmetic_v<T>)"@),
        (1nat, "{"@),
        (2nat, "return read_scalar(reader, value);"@),
        (1nat, "}"@),
        (1nat, "else"@),
        (1nat, "{"@),
        (2nat, "return readers::read(reader, value);"@),
        (1nat, "}"@),
        (0nat, "}"@),
        (0nat, ""@),
        (0nat, "template <class Writer, class T>"@),
        (0nat, "inline bool write_value(Writer& writer, T const& value)"@),
        (0nat, "{"@),
        (1nat, "if constexpr (std::is_trivially_copyable_v<T> && std::is_arithmetic_v<T>)"@),
        (1nat, "{"@),
        (2nat, "return write_scalar(writer, value);"@),
        (1nat, "}"@),
        (1nat, "else"@),
        (1nat, "{"@),
        (2nat, "return writers::write(writer, value);"@),
        (1nat, "}"@),
        (0nat, "}"@),
        (0nat, ""@),
        (0nat, "template <class T>"@),
        (0nat, "struct ArrayRef"@),
        (0nat, "{"@),
        (1nat, "const std::byte* content_ptr;"@),
        (1nat, "size_t t_count;"@),
        (1nat, "void copy_to(std::span<T> dest)"@),
        (1nat, "{"@),
        (2nat, "auto count = std::min(dest.size(), t_count);"@),
        (2nat, "std::memcpy(dest.data(), content_ptr, sizeof(T)*count);"@),
        (1nat, "}"@),
        (1nat, "void copy_to_vector(std::vector<T>& dest)"@),
        (1nat, "{"@),
        (2nat, "dest.resize(t_count);"@),
        (2nat, "std::memcpy(dest.data(), content_ptr, sizeof(T)*t_count);"@),
        (1nat, "}"@),
        (1nat, "template <class Function> void for_each(Function&& f)"@),
        (1nat, "{"@),
        (2nat, "T temp;"@),
        (2nat, "for (size_t i = 0; i < t_count; i++)"@),
        (2nat, "{"@),
        (3nat, "std::memcpy(&temp, content_ptr + (i * sizeof(T)), sizeof(T));"@),
        (3nat, "f(i, temp);"@),
        (2nat, "}"@),
        (1nat, "}"@),
        (0nat, "}"@),
        (0nat, ";"@)
    ]
}

/// The lines that open every header.
pub open spec fn preamble_lines() -> Seq<Seq<char>> {
    seq![
        "#pragma once"@,
        "#include <array>"@,
        "#include <cstddef>"@,
        "#include <cstdint>"@,
        "#include <limits>"@,
        "#include <span>"@,
        "#include <type_traits>"@,
        "#include <variant>"@,
        "#include <utility>"@,
        ""@,
        "// Reader concept: bool read_bytes(std::byte*, size_t);"@,
        "// Reader concept: std::span<std::byte> advance_bytes(size_t);"@,
        "// Writer concept: bool write_bytes(std::byte const*, size_t);"@
    ]
}

pub open spec fn skips_def(k: KindModel) -> bool {
    k is Primitive || k is Void
}

/// The forward declarations of the first `k` types of `ids`.
pub open spec fn fwd_defs_of(w: WorldModel, t: Seq<char>, d: nat, ids: Seq<TypeID>, ns: Namespace, k: int) -> Result<
    Seq<char>,
    Seq<char>,
>
    decreases k,
{
    if k <= 0 || k > ids.len() {
        Ok(t)
    } else {
        match fwd_defs_of(w, t, d, ids, ns, k - 1) {
            Err(e) => Err(e),
            Ok(t1) => if skips_def(kind_of(w, ids[k - 1])) {
                Ok(t1)
            } else {
                fwd_def_spec(w, t1, d, ids[k - 1], ns)
            },
        }
    }
}

/// The definitions of the first `k` types of `ids`.
pub open spec fn full_defs_of(w: WorldModel, t: Seq<char>, d: nat, ids: Seq<TypeID>, ns: Namespace, k: int) -> Result<
    Seq<char>,
    Seq<char>,
>
    decreases k,
{
    if k <= 0 || k > ids.len() {
        Ok(t)
    } else {
        match full_defs_of(w, t, d, ids, ns, k - 1) {
            Err(e) => Err(e),
            Ok(t1) => if skips_def(kind_of(w, ids[k - 1])) {
                Ok(t1)
            } else {
                def_spec(w, t1, d, ids[k - 1], ns)
            },
        }
    }
}

/// The template declarations of the first `k` types of `ids`.
pub open spec fn decls_of(w: WorldModel, t: Seq<char>, d: nat, ids: Seq<TypeID>, ns: Namespace, k: int) -> Seq<char>
    decreases k,
{
    if k <= 0 || k > ids.len() {
        t
    } else {
        template_decl(w, decls_of(w, t, d, ids, ns, k - 1), d, ids[k - 1], ns)
    }
}

/// The template of `id` in `ns`, with the array guard `g`.
#[verifier::opaque]
pub open spec fn impl_of(w: WorldModel, g: Option<u64>, t: Seq<char>, d: nat, id: TypeID, ns: Namespace) -> Result<Seq<char>, Seq<char>> {
    match ns {
        Namespace::Read => read_impl_cpp(w, g, t, d, id),
        Namespace::Write => write_impl_cpp(w, t, d, id),
    }
}

/// The templates of the first `k` types of `ids`.
pub open spec fn impls_of(w: WorldModel, g: Option<u64>, t: Seq<char>, d: nat, ids: Seq<TypeID>, ns: Namespace, k: int) -> Result<
    Seq<char>,
    Seq<char>,
>
    decreases k,
{
    if k <= 0 || k > ids.len() {
        Ok(t)
    } else {
        match impls_of(w, g, t, d, ids, ns, k - 1) {
            Err(e) => Err(e),
            Ok(t1) => if skips_def(kind_of(w, ids[k - 1])) {
                Ok(t1)
            } else {
                impl_of(w, g, t1, d, ids[k - 1], ns)
            },
        }
    }
}

/// The namespace `ns` with forward declarations only.
pub open spec fn namespace_fwd_spec(w: WorldModel, t: Seq<char>, d: nat, ns: Namespace) -> Result<Seq<char>, Seq<char>> {
    let t1 = put(put(t, d, "namespace "@ + ns_name(ns) + " "@), d, "{"@);
    match fwd_defs_of(w, t1, d + 1, w.sorted, ns, w.sorted.len() as int) {
        Err(e) => Err(e),
        Ok(t2) => Ok(put(decls_of(w, t2, d + 1, w.sorted, ns, w.sorted.len() as int), d, "}"@)),
    }
}

/// The namespace `ns` in full: definitions, template declarations, then templates.
pub open spec fn namespace_spec(w: WorldModel, g: Option<u64>, t: Seq<char>, d: nat, ns: Namespace) -> Result<Seq<char>, Seq<char>> {
    let t1 = put(put(t, d, "namespace "@ + ns_name(ns) + " "@), d, "{"@);
    match full_defs_of(w, t1, d + 1, w.sorted, ns, w.sorted.len() as int) {
        Err(e) => Err(e),
        Ok(t2) => {
            let t3 = put(decls_of(w, put(t2, d + 1, ""@), d + 1, w.sorted, ns, w.sorted.len() as int), d + 1, ""@);
            match impls_of(w, g, t3, d + 1, w.sorted, ns, w.sorted.len() as int) {
                Err(e) => Err(e),
                Ok(t4) => Ok(put(t4, d, "}"@)),
            }
        },
    }
}

/// The C++ header generated for `w` with the array guard `g`.
pub open spec fn cpp_source(w: WorldModel, g: Option<u64>) -> Result<Seq<char>, Seq<char>> {
    let t0 = table(Seq::empty(), 0, preamble_lines().map_values(|l: Seq<char>| (0nat, l)), 13)
        + "namespace "@ + rust_ident(w.module_name) + " "@;
    let t1 = put(put(t0, 0, "{"@), 1, "template <class T> struct ArrayRef;"@);
    match namespace_fwd_spec(w, t1, 1, Namespace::Read) {
        Err(e) => Err(e),
        Ok(t2) => match namespace_fwd_spec(w, put(t2, 1, ""@), 1, Namespace::Write) {
            Err(e) => Err(e),
            Ok(t3) => {
                let t4 = put(table(put(t3, 1, ""@), 1, helper_lines(), helper_lines().len() as int), 1, ""@);
                match namespace_spec(w, g, t4, 1, Namespace::Read) {
                    Err(e) => Err(e),
                    Ok(t5) => match namespace_spec(w, g, put(t5, 1, ""@), 1, Namespace::Write) {
                        Err(e) => Err(e),
                        Ok(t6) => Ok(put(t6, 0, "}"@)),
                    },
                }
            },
        },
    }
}

/// Writes lines at depths relative to the writer's.
fn emit_table(out: &mut CodeWriter, ls: &Vec<(usize, &str)>, Ghost(spec_ls): Ghost<Seq<(nat, Seq<char>)>>)
    requires
        ls@.len() == spec_ls.len(),
        forall|k: int| 0 <= k < ls@.len() ==> (#[trigger] ls@[k]).0 as nat == spec_ls[k].0 && ls@[k].1@ == spec_ls[k].1,
        forall|k: int| 0 <= k < ls@.len() ==> (#[trigger] ls@[k]).0 <= 4,
        old(out).depth() + 8 < usize::MAX,
    ensures
        final(out).depth() == old(out).depth(),
        final(out).same_marks(old(out)),
        final(out).text() == table(old(out).text(), old(out).depth(), spec_ls, spec_ls.len() as int),
{
    let ghost d = out.depth();
    let ghost t0 = out.text();
    let mut i: usize = 0;
    while i < ls.len()
        invariant
            ls@.len() == spec_ls.len(),
            forall|k: int| 0 <= k < ls@.len() ==> (#[trigger] ls@[k]).0 as nat == spec_ls[k].0 && ls@[k].1@ == spec_ls[k].1,
            forall|k: int| 0 <= k < ls@.len() ==> (#[trigger] ls@[k]).0 <= 4,
            d + 8 < usize::MAX,
            out.depth() == d,
            out.same_marks(old(out)),
            i <= ls@.len(),
            out.text() == table(t0, d, spec_ls, i as int),
        decreases ls.len() - i,
    {
        let (extra, l) = ls[i];
        let ghost before = out.text();
        out.wln_at(extra, l);
        assert(out.text() == put(before, (d + spec_ls[i as int].0) as nat, spec_ls[i as int].1));
        i = i + 1;
    }
}

/// Writes the helper templates.
pub fn emit_helpers(out: &mut CodeWriter)
    requires
        old(out).depth() + 8 < usize::MAX,
    ensures
        final(out).depth() == old(out).depth(),
        final(out).same_marks(old(out)),
        final(out).text() == table(old(out).text(), old(out).depth(), helper_lines(), helper_lines().len() as int),
{
    let ls: Vec<(usize, &str)> = vec![
        (0, "template <class Reader>"),
        (0, "inline bool read_bytes(Reader& reader, void* dst, size_t n)"),
        (0, "{"),
        (1, "return reader.read_bytes(reinterpret_cast<std::byte*>(dst), n);"),
        (0, "}"),
        (0, ""),
        (0, "template <class Writer>"),
        (0, "inline bool write_bytes(Writer& writer, void const* src, size_t n)"),
        (0, "{"),
        (1, "return writer.write_bytes(reinterpret_cast<std::byte const*>(src), n);"),
        (0, "}"),
        (0, ""),
        (0, "template <class Reader, class T>"),
        (0, "inline bool read_scalar(Reader& reader, T& value)"),
        (0, "{"),
        (1, "static_assert(std::is_trivially_copyable_v<T>);"),
        (1, "return read_bytes(reader, &value, sizeof(T));"),
        (0, "}"),
        (0, ""),
        (0, "template <class Writer, class T>"),
        (0, "inline bool write_scalar(Writer& writer, T const& value)"),
        (0, "{"),
        (1, "static_assert(std::is_trivially_copyable_v<T>);"),
        (1, "return write_bytes(writer, &value, sizeof(T));"),
        (0, "}"),
        (0, ""),
        (0, "template <class Reader, class T>"),
        (0, "inline bool read_value(Reader& reader, T& value)"),
        (0, "{"),
        (1, "if constexpr (std::is_trivially_copyable_v<T> && std::is_arithmetic_v<T>)"),
        (1, "{"),
        (2, "return read_scalar(reader, value);"),
        (1, "}"),
        (1, "else"),
        (1, "{"),
        (2, "return readers::read(reader, value);"),
        (1, "}"),
        (0, "}"),
        (0, ""),
        (0, "template <class Writer, class T>"),
        (0, "inline bool write_value(Writer& writer, T const& value)"),
        (0, "{"),
        (1, "if constexpr (std::is_trivially_copyable_v<T> && std::is_arithmetic_v<T>)"),
        (1, "{"),
        (2, "return write_scalar(writer, value);"),
        (1, "}"),
        (1, "else"),
        (1, "{"),
        (2, "return writers::write(writer, value);"),
        (1, "}"),
        (0, "}"),
        (0, ""),
        (0, "template <class T>"),
        (0, "struct ArrayRef"),
        (0, "{"),
        (1, "const std::byte* content_ptr;"),
        (1, "size_t t_count;"),
        (1, "void copy_to(std::span<T> dest)"),
        (1, "{"),
        (2, "auto count = std::min(dest.size(), t_count);"),
        (2, "std::memcpy(dest.data(), content_ptr, sizeof(T)*count);"),
        (1, "}"),
        (1, "void copy_to_vector(std::vector<T>& dest)"),
        (1, "{"),
        (2, "dest.resize(t_count);"),
        (2, "std::memcpy(dest.data(), content_ptr, sizeof(T)*t_count);"),
        (1, "}"),
        (1, "template <class Function> void for_each(Function&& f)"),
        (1, "{"),
        (2, "T temp;"),
        (2, "for (size_t i = 0; i < t_count; i++)"),
        (2, "{"),
        (3, "std::memcpy(&temp, content_ptr + (i * sizeof(T)), sizeof(T));"),
        (3, "f(i, temp);"),
        (2, "}"),
        (1, "}"),
        (0, "}"),
        (0, ";")
    ];
    proof {
        assert(ls@.len() == helper_lines().len());
        assert(forall|k: int| 0 <= k < ls@.len() ==> (#[trigger] ls@[k]).0 as nat == helper_lines()[k].0 && ls@[k].1@ == helper_lines()[k].1);
        assert(forall|k: int| 0 <= k < ls@.len() ==> (#[trigger] ls@[k]).0 <= 4);
    }
    emit_table(out, &ls, Ghost(helper_lines()));
}

/// Writes the lines that open the header, and `namespace <name> ` without a line break.
pub fn emit_preamble(out: &mut CodeWriter, namespace: &str)
    requires
        old(out).depth() == 0,
    ensures
        final(out).depth() == old(out).depth(),
        final(out).same_marks(old(out)),
        final(out).text() == table(old(out).text(), 0, preamble_lines().map_values(|l: Seq<char>| (0nat, l)), 13)
            + "namespace "@ + namespace@ + " "@,
{
    let ls: Vec<(usize, &str)> = vec![
        (0, "#pragma once"),
        (0, "#include <array>"),
        (0, "#include <cstddef>"),
        (0, "#include <cstdint>"),
        (0, "#include <limits>"),
        (0, "#include <span>"),
        (0, "#include <type_traits>"),
        (0, "#include <variant>"),
        (0, "#include <utility>"),
        (0, ""),
        (0, "// Reader concept: bool read_bytes(std::byte*, size_t);"),
        (0, "// Reader concept: std::span<std::byte> advance_bytes(size_t);"),
        (0, "// Writer concept: bool write_bytes(std::byte const*, size_t);")
    ];
    proof {
        let sl = preamble_lines().map_values(|l: Seq<char>| (0nat, l));
        assert(ls@.len() == sl.len());
        assert(forall|k: int| 0 <= k < ls@.len() ==> (#[trigger] ls@[k]).0 as nat == sl[k].0 && ls@[k].1@ == sl[k].1);
        assert(forall|k: int| 0 <= k < ls@.len() ==> (#[trigger] ls@[k]).0 <= 4);
    }
    emit_table(out, &ls, Ghost(preamble_lines().map_values(|l: Seq<char>| (0nat, l))));
    out.write_str(&cat3("namespace ", namespace, " "));
}


proof fn lemma_fwd_defs_err(w: WorldModel, t: Seq<char>, d: nat, ids: Seq<TypeID>, ns: Namespace, k: int, n: int)
    requires
        0 <= k <= n <= ids.len(),
        fwd_defs_of(w, t, d, ids, ns, k) is Err,
    ensures
        fwd_defs_of(w, t, d, ids, ns, n) == fwd_defs_of(w, t, d, ids, ns, k),
    decreases n - k,
{
    if n > k {
        lemma_fwd_defs_err(w, t, d, ids, ns, k, n - 1);
    }
}

proof fn lemma_full_defs_err(w: WorldModel, t: Seq<char>, d: nat, ids: Seq<TypeID>, ns: Namespace, k: int, n: int)
    requires
        0 <= k <= n <= ids.len(),
        full_defs_of(w, t, d, ids, ns, k) is Err,
    ensures
        full_defs_of(w, t, d, ids, ns, n) == full_defs_of(w, t, d, ids, ns, k),
    decreases n - k,
{
    if n > k {
        lemma_full_defs_err(w, t, d, ids, ns, k, n - 1);
    }
}

proof fn lemma_impls_err(w: WorldModel, g: Option<u64>, t: Seq<char>, d: nat, ids: Seq<TypeID>, ns: Namespace, k: int, n: int)
    requires
        0 <= k <= n <= ids.len(),
        impls_of(w, g, t, d, ids, ns, k) is Err,
    ensures
        impls_of(w, g, t, d, ids, ns, n) == impls_of(w, g, t, d, ids, ns, k),
    decreases n - k,
{
    if n > k {
        lemma_impls_err(w, g, t, d, ids, ns, k, n - 1);
    }
}

/// Writes the template declarations of every type.
fn emit_decls(ctx: &CppContext, out: &mut CodeWriter, types: &Vec<(TypeID, &crate::compile::types::Type)>, ns: Namespace)
    requires
        ctx.ready(),
        types@.len() == ctx.world_model().sorted.len(),
        forall|k: int|
            0 <= k < types@.len() ==> (#[trigger] types@[k]).0 == ctx.world_model().sorted[k] && types@[k].1@
                == def_of(ctx.world_model().defs, types@[k].0) && has_id(ctx.world_model().defs, types@[k].0),
    ensures
        final(out).depth() == old(out).depth(),
        final(out).same_marks(old(out)),
        final(out).text() == decls_of(
            ctx.world_model(),
            old(out).text(),
            old(out).depth(),
            ctx.world_model().sorted,
            ns,
            ctx.world_model().sorted.len() as int,
        ),
{
    let ghost w = ctx.world_model();
    let ghost t0 = out.text();
    let ghost d = out.depth();
    let mut i: usize = 0;
    while i < types.len()
        invariant
            ctx.ready(),
            w == ctx.world_model(),
            types@.len() == w.sorted.len(),
            forall|k: int|
                0 <= k < types@.len() ==> (#[trigger] types@[k]).0 == w.sorted[k] && types@[k].1@ == def_of(w.defs, types@[k].0)
                    && has_id(w.defs, types@[k].0),
            out.depth() == d,
            out.same_marks(old(out)),
            i <= types@.len(),
            out.text() == decls_of(w, t0, d, w.sorted, ns, i as int),
        decreases types.len() - i,
    {
        let (id, ty) = types[i];
        emit_forward_decls(ctx, out, id, ty, ns);
        i = i + 1;
    }
}

/// Writes the namespace `ns` with forward declarations only.
pub fn emit_namespace_fwd(ctx: &CppContext, out: &mut CodeWriter, ns: Namespace) -> (r: Result<(), String>)
    requires
        ctx.ready(),
        old(out).braced(),
        old(out).depth() + 16 < usize::MAX,
    ensures
        final(out).depth() == old(out).depth(),
        final(out).same_marks(old(out)),
        match (r, namespace_fwd_spec(ctx.world_model(), old(out).text(), old(out).depth(), ns)) {
            (Ok(_), Ok(t)) => final(out).text() == t,
            (Err(a), Err(b)) => a@ == b,
            _ => false,
        },
{
    let ghost w = ctx.world_model();
    let ghost d = out.depth();
    proof {
        lemma_braces();
    }
    out.wln(&cat3("namespace ", ctx.namespace_name(ns), " "));
    out.indent();
    let ghost t1 = out.text();
    let types = ctx.types();
    let mut i: usize = 0;
    while i < types.len()
        invariant
            ctx.ready(),
            w == ctx.world_model(),
            types@.len() == w.sorted.len(),
            forall|k: int|
                0 <= k < types@.len() ==> (#[trigger] types@[k]).0 == w.sorted[k] && types@[k].1@ == def_of(w.defs, types@[k].0)
                    && has_id(w.defs, types@[k].0),
            out.depth() == d + 1,
            out.braced(),
            old(out).braced(),
            d == old(out).depth(),
            t1 == put(put(old(out).text(), d, "namespace "@ + ns_name(ns) + " "@), d, "{"@),
            d + 16 < usize::MAX,
            i <= types@.len(),
            fwd_defs_of(w, t1, d + 1, w.sorted, ns, i as int) == Ok::<Seq<char>, Seq<char>>(out.text()),
        decreases types.len() - i,
    {
        let (id, ty) = types[i];
        if !matches!(ty.kind, TypeKind::Primitive(_) | TypeKind::Void) {
            match emit_type_def_fwd(ctx, out, id, ty, ns) {
                Ok(()) => {},
                Err(e) => {
                    proof {
                        lemma_fwd_defs_err(w, t1, d + 1, w.sorted, ns, i + 1, w.sorted.len() as int);
                        lemma_braces();
                    }
                    out.dedent();
                    return Err(e);
                },
            }
        }
        i = i + 1;
    }
    emit_decls(ctx, out, &types, ns);
    out.dedent();
    Ok(())
}

/// Writes the template of `id` in `ns`.
fn emit_impl_of(ctx: &CppContext, out: &mut CodeWriter, id: TypeID, ty: &crate::compile::types::Type, ns: Namespace) -> (r: Result<
    (),
    String,
>)
    requires
        ctx.ready(),
        bits_ok(ctx.world_model()),
        has_id(ctx.world_model().defs, id),
        ty@ == def_of(ctx.world_model().defs, id),
        old(out).braced(),
        old(out).depth() + 8 < usize::MAX,
    ensures
        final(out).depth() == old(out).depth(),
        final(out).same_marks(old(out)),
        match (r, impl_of(ctx.world_model(), ctx.guard(), old(out).text(), old(out).depth(), id, ns)) {
            (Ok(_), Ok(t)) => final(out).text() == t,
            (Err(a), Err(b)) => a@ == b,
            _ => false,
        },
{
    proof {
        reveal(impl_of);
    }
    match ns {
        Namespace::Read => emit_read_impl(ctx, out, id, ty),
        Namespace::Write => emit_write_impl(ctx, out, id, ty),
    }
}

/// Writes the namespace `ns` in full.
pub fn emit_namespace(ctx: &CppContext, out: &mut CodeWriter, ns: Namespace) -> (r: Result<(), String>)
    requires
        ctx.ready(),
        bits_ok(ctx.world_model()),
        old(out).braced(),
        old(out).depth() + 16 < usize::MAX,
    ensures
        final(out).depth() == old(out).depth(),
        final(out).same_marks(old(out)),
        match (r, namespace_spec(ctx.world_model(), ctx.guard(), old(out).text(), old(out).depth(), ns)) {
            (Ok(_), Ok(t)) => final(out).text() == t,
            (Err(a), Err(b)) => a@ == b,
            _ => false,
        },
{
    let ghost w = ctx.world_model();
    let ghost d = out.depth();
    proof {
        lemma_braces();
    }
    out.wln(&cat3("namespace ", ctx.namespace_name(ns), " "));
    out.indent();
    let ghost t1 = out.text();
    let types = ctx.types();
    let mut i: usize = 0;
    while i < types.len()
        invariant
            ctx.ready(),
            w == ctx.world_model(),
            types@.len() == w.sorted.len(),
            forall|k: int|
                0 <= k < types@.len() ==> (#[trigger] types@[k]).0 == w.sorted[k] && types@[k].1@ == def_of(w.defs, types@[k].0)
                    && has_id(w.defs, types@[k].0),
            out.depth() == d + 1,
            out.braced(),
            old(out).braced(),
            d == old(out).depth(),
            t1 == put(put(old(out).text(), d, "namespace "@ + ns_name(ns) + " "@), d, "{"@),
            d + 16 < usize::MAX,
            i <= types@.len(),
            full_defs_of(w, t1, d + 1, w.sorted, ns, i as int) == Ok::<Seq<char>, Seq<char>>(out.text()),
        decreases types.len() - i,
    {
        let (id, ty) = types[i];
        if !matches!(ty.kind, TypeKind::Primitive(_) | TypeKind::Void) {
            match emit_type_def(ctx, out, id, ty, ns) {
                Ok(()) => {},
                Err(e) => {
                    proof {
                        lemma_full_defs_err(w, t1, d + 1, w.sorted, ns, i + 1, w.sorted.len() as int);
                        lemma_braces();
                    }
                    out.dedent();
                    return Err(e);
                },
            }
        }
        i = i + 1;
    }
    let ghost t2 = out.text();
    out.newline();
    emit_decls(ctx, out, &types, ns);
    out.newline();
    let ghost t3 = out.text();
    assert(full_defs_of(w, t1, d + 1, w.sorted, ns, w.sorted.len() as int) == Ok::<Seq<char>, Seq<char>>(t2));
    let mut i: usize = 0;
    while i < types.len()
        invariant
            ctx.ready(),
            bits_ok(w),
            w == ctx.world_model(),
            types@.len() == w.sorted.len(),
            forall|k: int|
                0 <= k < types@.len() ==> (#[trigger] types@[k]).0 == w.sorted[k] && types@[k].1@ == def_of(w.defs, types@[k].0)
                    && has_id(w.defs, types@[k].0),
            out.depth() == d + 1,
            out.braced(),
            old(out).braced(),
            d == old(out).depth(),
            t1 == put(put(old(out).text(), d, "namespace "@ + ns_name(ns) + " "@), d, "{"@),
            full_defs_of(w, t1, d + 1, w.sorted, ns, w.sorted.len() as int) == Ok::<Seq<char>, Seq<char>>(t2),
            t3 == put(decls_of(w, put(t2, d + 1, ""@), d + 1, w.sorted, ns, w.sorted.len() as int), d + 1, ""@),
            d + 16 < usize::MAX,
            i <= types@.len(),
            impls_of(w, ctx.guard(), t3, d + 1, w.sorted, ns, i as int) == Ok::<Seq<char>, Seq<char>>(out.text()),
        decreases types.len() - i,
    {
        let (id, ty) = types[i];
        if !matches!(ty.kind, TypeKind::Primitive(_) | TypeKind::Void) {
            match emit_impl_of(ctx, out, id, ty, ns) {
                Ok(()) => {},
                Err(e) => {
                    proof {
                        lemma_impls_err(w, ctx.guard(), t3, d + 1, w.sorted, ns, i + 1, w.sorted.len() as int);
                        lemma_braces();
                    }
                    out.dedent();
                    return Err(e);
                },
            }
        }
        i = i + 1;
    }
    out.dedent();
    Ok(())
}

/// The C++ header for `world`: helpers, then a `readers` and a `writers` namespace, inside
/// a namespace named after the module. With `options.guard_array_size`, each array read
/// first checks its size in bytes against that limit.
pub fn emit(world: &World, options: &GlobalOptions) -> (r: Result<String, String>)
    requires
        world_ready(world@),
        bits_ok(world@),
    ensures
        match (r, cpp_source(world@, options.guard_array_size)) {
            (Ok(a), Ok(b)) => a@ == b,
            (Err(a), Err(b)) => a@ == b,
            _ => false,
        },
{
    let ctx = CppContext::new(world, options)?;
    let mut out = CodeWriter::new("{", "}");
    proof {
        lemma_braces();
    }
    emit_preamble(&mut out, ctx.namespace());
    out.indent();
    out.wln("template <class T> struct ArrayRef;");
    emit_namespace_fwd(&ctx, &mut out, Namespace::Read)?;
    out.newline();
    emit_namespace_fwd(&ctx, &mut out, Namespace::Write)?;
    out.newline();
    emit_helpers(&mut out);
    out.newline();
    emit_namespace(&ctx, &mut out, Namespace::Read)?;
    out.newline();
    emit_namespace(&ctx, &mut out, Namespace::Write)?;
    out.dedent();
    Ok(out.finish())
}


/// Compiles `module` and renders the world as a C++ header, as the command line does for
/// the C++ generator.
pub fn generate(module: crate::intermediate::ast::Module, options: &GlobalOptions) -> (r: Result<String, GenerateError>)
    requires
        module@.definitions.len() <= u32::MAX - 11,
    ensures
        match r {
            Err(GenerateError::Compile(e)) => crate::compile::compile_result(Err(e), module@),
            Err(GenerateError::Codegen(e)) => exists|w: World|
                crate::compile::compile_result(Ok(w), module@) && cpp_source(w@, options.guard_array_size) == Err::<Seq<char>, Seq<char>>(e@),
            Ok(s) => exists|w: World|
                crate::compile::compile_result(Ok(w), module@) && cpp_source(w@, options.guard_array_size) == Ok::<Seq<char>, Seq<char>>(s@),
        },
{
    let ghost m = module@;
    let world = match crate::compile::compile(module) {
        Ok(w) => w,
        Err(e) => {
            return Err(GenerateError::Compile(e));
        },
    };
    proof {
        lemma_compiled_world_renders(Ok(world), m);
    }
    match emit(&world, options) {
        Ok(s) => Ok(s),
        Err(e) => Err(GenerateError::Codegen(e)),
    }
}

} // verus!
