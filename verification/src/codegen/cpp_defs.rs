//! The type declarations of the C++ backend.
use vstd::prelude::*;

use super::cpp::{cpp_bulk_spec, cpp_name, cpp_type_spec, CppContext, Namespace};
use super::rust::{kind_of, rust_name, world_ready};
use super::rust_defs::lemma_ref_defined;
use super::{cat2, cat3, cat4, cat5, cat6, cat7, lemma_braces, lines_of, put, rust_ident, sanitize, try_lines_of, CodeWriter};
use crate::compile::types::{
    def_of, has_id, BitfldMemberModel, KindModel, StructMemberModel, Type, TypeID, TypeKind,
    VariantMemberModel, WorldModel,
};
use crate::intermediate::ast::EnumMemberModel;
use crate::text::{decimal, signed_decimal};

verus! {

/// The declaration of an array type `name` of `value` elements.
pub open spec fn array_using(w: WorldModel, id: TypeID, ns: Namespace, name: Seq<char>, value: Seq<char>) -> Seq<char> {
    match kind_of(w, id) {
        KindModel::FixedArray { count, .. } => "using "@ + name + " = std::array<"@ + value + ", "@ + decimal(
            count as nat,
        ) + ">;"@,
        _ => match ns {
            Namespace::Read => if cpp_bulk_spec(w, id) {
                "using "@ + name + " = ArrayRef<"@ + value + ">;"@
            } else {
                "using "@ + name + " = std::vector<"@ + value + ">;"@
            },
            Namespace::Write => "using "@ + name + " = std::span<"@ + value + ">;"@,
        },
    }
}

/// The forward declaration of `id` in `ns`, then a blank line.
pub open spec fn fwd_def_spec(w: WorldModel, t: Seq<char>, d: nat, id: TypeID, ns: Namespace) -> Result<
    Seq<char>,
    Seq<char>,
> {
    let name = cpp_name(w, id, ns);
    let body = match kind_of(w, id) {
        KindModel::Alias { other } => match cpp_type_spec(w, other, ns) {
            Err(e) => Err(e),
            Ok(target) => Ok(put(t, d, "using "@ + name + " = "@ + target + ";"@)),
        },
        KindModel::Enum { underlying, .. } => match cpp_type_spec(w, underlying, ns) {
            Err(e) => Err(e),
            Ok(base) => Ok(put(t, d, "enum class "@ + name + " : "@ + base + ";"@)),
        },
        KindModel::DynamicArray { value_type, .. } | KindModel::FixedArray { value_type, .. } => match cpp_type_spec(
            w,
            value_type,
            ns,
        ) {
            Err(e) => Err(e),
            Ok(v) => Ok(put(t, d, array_using(w, id, ns, name, v))),
        },
        KindModel::Const { ty, value } => match cpp_type_spec(w, ty, ns) {
            Err(e) => Err(e),
            Ok(target) => Ok(
                put(
                    t,
                    d,
                    "constexpr inline "@ + target + " "@ + rust_name(w, id) + " = "@ + signed_decimal(value as int)
                        + ";"@,
                ),
            ),
        },
        KindModel::Primitive { .. } | KindModel::Void => Ok(t),
        _ => Ok(put(t, d, "struct "@ + name + ";"@)),
    };
    match body {
        Err(e) => Err(e),
        Ok(t1) => Ok(put(t1, d, ""@)),
    }
}

pub open spec fn pack_line(w: WorldModel, ns: Namespace) -> spec_fn(StructMemberModel) -> Result<Seq<char>, Seq<char>> {
    |m: StructMemberModel| match cpp_type_spec(w, m.ty, ns) {
        Err(e) => Err(e),
        Ok(mt) => Ok(mt + " "@ + rust_ident(m.name) + ";"@),
    }
}

pub open spec fn enum_line() -> spec_fn(EnumMemberModel) -> Seq<char> {
    |m: EnumMemberModel| rust_ident(m.name) + " = "@ + signed_decimal(m.value as int) + ","@
}

pub open spec fn bit_line(w: WorldModel, ns: Namespace) -> spec_fn(BitfldMemberModel) -> Result<Seq<char>, Seq<char>> {
    |m: BitfldMemberModel| match cpp_type_spec(w, m.underlying, ns) {
        Err(e) => Err(e),
        Ok(mt) => Ok(mt + " "@ + rust_ident(m.name) + "{};"@),
    }
}

pub open spec fn seq_line(w: WorldModel, ns: Namespace) -> spec_fn(StructMemberModel) -> Result<Seq<char>, Seq<char>> {
    |m: StructMemberModel| match cpp_type_spec(w, m.ty, ns) {
        Err(e) => Err(e),
        Ok(mt) => Ok(
            mt + " "@ + (match ns {
                Namespace::Read => ""@,
                Namespace::Write => "const&"@,
            }) + " "@ + rust_ident(m.name) + ";"@,
        ),
    }
}

/// The alternative of a variant that holds member `m`.
pub open spec fn payload_spec(w: WorldModel, ns: Namespace, m: VariantMemberModel) -> Result<Seq<char>, Seq<char>> {
    match cpp_type_spec(w, m.ty, ns) {
        Err(e) => Err(e),
        Ok(target) => Ok(
            if kind_of(w, m.ty) is Void {
                "std::monostate"@
            } else {
                match ns {
                    Namespace::Write => target + " const*"@,
                    Namespace::Read => target,
                }
            },
        ),
    }
}

/// The alternatives of the first `k` members, joined by `, `.
pub open spec fn payloads(w: WorldModel, ns: Namespace, ms: Seq<VariantMemberModel>, k: int) -> Result<
    Seq<char>,
    Seq<char>,
>
    decreases k,
{
    if k <= 0 || k > ms.len() {
        Ok(Seq::empty())
    } else {
        match payloads(w, ns, ms, k - 1) {
            Err(e) => Err(e),
            Ok(s) => match payload_spec(w, ns, ms[k - 1]) {
                Err(e) => Err(e),
                Ok(p) => Ok(if k == 1 { p } else { s + ", "@ + p }),
            },
        }
    }
}

/// The member lines of a pack, bitfield or sequence.
pub open spec fn member_lines(w: WorldModel, t: Seq<char>, d: nat, id: TypeID, ns: Namespace) -> Result<
    Seq<char>,
    Seq<char>,
> {
    match kind_of(w, id) {
        KindModel::Pack { members } => try_lines_of(t, d, members, pack_line(w, ns), members.len() as int),
        KindModel::Bitfld { members, .. } => try_lines_of(t, d, members, bit_line(w, ns), members.len() as int),
        KindModel::Sequence { members } => try_lines_of(t, d, members, seq_line(w, ns), members.len() as int),
        _ => Ok(t),
    }
}

/// The closing of a braced declaration: the brace, then `;` on its own line.
pub open spec fn close_decl(t: Seq<char>, d: nat) -> Seq<char> {
    put(put(t, d, "}"@), d, ";"@)
}

/// The definition of `id` in `ns`, then a blank line.
pub open spec fn def_spec(w: WorldModel, t: Seq<char>, d: nat, id: TypeID, ns: Namespace) -> Result<
    Seq<char>,
    Seq<char>,
> {
    let name = cpp_name(w, id, ns);
    let body = match kind_of(w, id) {
        KindModel::Pack { members } => match try_lines_of(
            put(put(put(t, d, "#pragma pack(push, 1)"@), d, "struct "@ + name), d, "{"@),
            d + 1,
            members,
            pack_line(w, ns),
            members.len() as int,
        ) {
            Err(e) => Err(e),
            Ok(t1) => Ok(
                put(
                    put(close_decl(t1, d), d, "#pragma pack(pop)"@),
                    d,
                    "static_assert(std::is_trivially_copyable_v<"@ + name + ">, \"pack must be POD\");"@,
                ),
            ),
        },
        KindModel::Enum { underlying, members, default } => match cpp_type_spec(w, underlying, ns) {
            Err(e) => Err(e),
            Ok(base) => {
                let t1 = put(put(t, d, "enum class "@ + name + " : "@ + base + " "@), d, "{"@);
                let t2 = lines_of(t1, d + 1, members, enum_line(), members.len() as int);
                let t3 = match default {
                    Some(df) => put(t2, d + 1, enum_line()(df)),
                    None => t2,
                };
                Ok(close_decl(t3, d))
            },
        },
        KindModel::Bitfld { members, .. } => match try_lines_of(
            put(put(t, d, "struct "@ + name + " "@), d, "{"@),
            d + 1,
            members,
            bit_line(w, ns),
            members.len() as int,
        ) {
            Err(e) => Err(e),
            Ok(t1) => Ok(close_decl(t1, d)),
        },
        KindModel::Variant { members, .. } => match payloads(w, ns, members, members.len() as int) {
            Err(e) => Err(e),
            Ok(ps) => Ok(
                close_decl(
                    put(
                        put(
                            put(put(t, d, "struct "@ + name + " : std::variant<"@ + ps + ">"@), d, "{"@),
                            d + 1,
                            "using variant::variant;"@,
                        ),
                        d + 1,
                        "using variant::operator=;"@,
                    ),
                    d,
                ),
            ),
        },
        KindModel::Sequence { members } => match try_lines_of(
            put(put(t, d, "struct "@ + name + " "@), d, "{"@),
            d + 1,
            members,
            seq_line(w, ns),
            members.len() as int,
        ) {
            Err(e) => Err(e),
            Ok(t1) => Ok(close_decl(t1, d)),
        },
        _ => fwd_body(w, t, d, id, ns),
    };
    match body {
        Err(e) => Err(e),
        Ok(t1) => Ok(put(t1, d, ""@)),
    }
}

/// The declarations that are the same forward and in full: aliases and arrays.
pub open spec fn fwd_body(w: WorldModel, t: Seq<char>, d: nat, id: TypeID, ns: Namespace) -> Result<
    Seq<char>,
    Seq<char>,
> {
    let name = cpp_name(w, id, ns);
    match kind_of(w, id) {
        KindModel::Alias { other } => match cpp_type_spec(w, other, ns) {
            Err(e) => Err(e),
            Ok(target) => Ok(put(t, d, "using "@ + name + " = "@ + target + ";"@)),
        },
        KindModel::DynamicArray { value_type, .. } | KindModel::FixedArray { value_type, .. } => match cpp_type_spec(
            w,
            value_type,
            ns,
        ) {
            Err(e) => Err(e),
            Ok(v) => Ok(put(t, d, array_using(w, id, ns, name, v))),
        },
        _ => Ok(t),
    }
}

/// The declaration of the `read` or `write` template for `id`; none for primitives,
/// `void` and aliases.
pub open spec fn template_decl(w: WorldModel, t: Seq<char>, d: nat, id: TypeID, ns: Namespace) -> Seq<char> {
    match kind_of(w, id) {
        KindModel::Primitive { .. } | KindModel::Void | KindModel::Alias { .. } | KindModel::Const { .. } => t,
        _ => match ns {
            Namespace::Read => put(
                t,
                d,
                "template <class Reader> bool read(Reader&, "@ + rust_name(w, id) + "Reader&);"@,
            ),
            Namespace::Write => put(
                t,
                d,
                "template <class Writer> bool write(Writer&, "@ + rust_name(w, id) + "Writer const&);"@,
            ),
        },
    }
}


/// Writes the declaration of an alias or array, the same forward and in full.
fn emit_alias_or_array(ctx: &CppContext, out: &mut CodeWriter, id: TypeID, ty: &Type, ns: Namespace) -> (r: Result<
    (),
    String,
>)
    requires
        ctx.ready(),
        has_id(ctx.world_model().defs, id),
        ty@ == def_of(ctx.world_model().defs, id),
    ensures
        final(out).depth() == old(out).depth(),
        final(out).same_marks(old(out)),
        match (r, fwd_body(ctx.world_model(), old(out).text(), old(out).depth(), id, ns)) {
            (Ok(_), Ok(t)) => final(out).text() == t,
            (Err(a), Err(b)) => a@ == b,
            _ => false,
        },
{
    let ghost w = ctx.world_model();
    proof {
        ctx.lemma_ready_world();
    }
    let name = ctx.name_of(id, ns);
    match &ty.kind {
        TypeKind::Alias(a) => {
            proof {
                assert(crate::compile::verify::refs(kind_of(w, id))[0] == a.other);
                lemma_ref_defined(w, id, 0);
            }
            let target = ctx.cpp_type(a.other, ns)?;
            out.wln(&cat5("using ", name.as_str(), " = ", target.as_str(), ";"));
        },
        TypeKind::DynamicArray(arr) => {
            proof {
                assert(crate::compile::verify::refs(kind_of(w, id))[1] == arr.value_type);
                lemma_ref_defined(w, id, 1);
            }
            let value_ty = ctx.cpp_type(arr.value_type, ns)?;
            match ns {
                Namespace::Read => {
                    if ctx.can_bulk_array(id) {
                        out.wln(&cat5("using ", name.as_str(), " = ArrayRef<", value_ty.as_str(), ">;"));
                    } else {
                        out.wln(&cat5("using ", name.as_str(), " = std::vector<", value_ty.as_str(), ">;"));
                    }
                },
                Namespace::Write => {
                    out.wln(&cat5("using ", name.as_str(), " = std::span<", value_ty.as_str(), ">;"));
                },
            }
        },
        TypeKind::FixedArray(arr) => {
            proof {
                assert(crate::compile::verify::refs(kind_of(w, id))[0] == arr.value_type);
                lemma_ref_defined(w, id, 0);
            }
            let value_ty = ctx.cpp_type(arr.value_type, ns)?;
            let c = crate::text::u64_to_string(arr.count);
            out.wln(&cat7("using ", name.as_str(), " = std::array<", value_ty.as_str(), ", ", c.as_str(), ">;"));
        },
        _ => {},
    }
    Ok(())
}

/// Writes the forward declaration of `id` in `ns`, then a blank line.
pub fn emit_type_def_fwd(ctx: &CppContext, out: &mut CodeWriter, id: TypeID, ty: &Type, ns: Namespace) -> (r: Result<
    (),
    String,
>)
    requires
        ctx.ready(),
        has_id(ctx.world_model().defs, id),
        ty@ == def_of(ctx.world_model().defs, id),
    ensures
        final(out).depth() == old(out).depth(),
        final(out).same_marks(old(out)),
        match (r, fwd_def_spec(ctx.world_model(), old(out).text(), old(out).depth(), id, ns)) {
            (Ok(_), Ok(t)) => final(out).text() == t,
            (Err(a), Err(b)) => a@ == b,
            _ => false,
        },
{
    let ghost w = ctx.world_model();
    proof {
        ctx.lemma_ready_world();
    }
    let name = ctx.name_of(id, ns);
    match &ty.kind {
        TypeKind::Pack(_) | TypeKind::Bitfld(_) | TypeKind::Variant(_) | TypeKind::Sequence(_) => {
            out.wln(&cat3("struct ", name.as_str(), ";"));
        },
        TypeKind::Enum(e) => {
            proof {
                assert(crate::compile::verify::refs(kind_of(w, id))[0] == e.underlying);
                lemma_ref_defined(w, id, 0);
            }
            let base = ctx.cpp_type(e.underlying, ns)?;
            out.wln(&cat5("enum class ", name.as_str(), " : ", base.as_str(), ";"));
        },
        TypeKind::Const(c) => {
            proof {
                assert(crate::compile::verify::refs(kind_of(w, id))[0] == c.ty);
                lemma_ref_defined(w, id, 0);
            }
            let target = ctx.cpp_type(c.ty, ns)?;
            let plain = sanitize(ty.ident.as_str());
            let value = crate::text::i64_to_string(c.value);
            out.wln(&cat7("constexpr inline ", target.as_str(), " ", plain.as_str(), " = ", value.as_str(), ";"));
        },
        _ => {
            emit_alias_or_array(ctx, out, id, ty, ns)?;
        },
    }
    out.newline();
    Ok(())
}

/// Writes the declaration of the `read` or `write` template for `id`.
pub fn emit_forward_decls(ctx: &CppContext, out: &mut CodeWriter, id: TypeID, ty: &Type, ns: Namespace)
    requires
        ctx.ready(),
        has_id(ctx.world_model().defs, id),
        ty@ == def_of(ctx.world_model().defs, id),
    ensures
        final(out).depth() == old(out).depth(),
        final(out).same_marks(old(out)),
        final(out).text() == template_decl(ctx.world_model(), old(out).text(), old(out).depth(), id, ns),
{
    if matches!(ty.kind, TypeKind::Primitive(_) | TypeKind::Void | TypeKind::Alias(_) | TypeKind::Const(_)) {
        return;
    }
    let name = sanitize(ty.ident.as_str());
    match ns {
        Namespace::Read => {
            out.wln(&cat3("template <class Reader> bool read(Reader&, ", name.as_str(), "Reader&);"));
        },
        Namespace::Write => {
            out.wln(&cat3("template <class Writer> bool write(Writer&, ", name.as_str(), "Writer const&);"));
        },
    }
}


pub proof fn lemma_payloads_err(w: WorldModel, ns: Namespace, ms: Seq<VariantMemberModel>, k: int, n: int)
    requires
        0 <= k <= n <= ms.len(),
        payloads(w, ns, ms, k) is Err,
    ensures
        payloads(w, ns, ms, n) == payloads(w, ns, ms, k),
    decreases n - k,
{
    if n > k {
        lemma_payloads_err(w, ns, ms, k, n - 1);
    }
}

/// Writes the members of a pack, bitfield or sequence, one line each.
fn emit_member_lines(ctx: &CppContext, out: &mut CodeWriter, id: TypeID, ty: &Type, ns: Namespace) -> (r: Result<
    (),
    String,
>)
    requires
        ctx.ready(),
        has_id(ctx.world_model().defs, id),
        ty@ == def_of(ctx.world_model().defs, id),
        ty.kind is Pack || ty.kind is Bitfld || ty.kind is Sequence,
    ensures
        final(out).depth() == old(out).depth(),
        final(out).same_marks(old(out)),
        match (r, member_lines(ctx.world_model(), old(out).text(), old(out).depth(), id, ns)) {
            (Ok(_), Ok(t)) => final(out).text() == t,
            (Err(a), Err(b)) => a@ == b,
            _ => false,
        },
{
    let ghost w = ctx.world_model();
    let ghost d = out.depth();
    let ghost t0 = out.text();
    proof {
        ctx.lemma_ready_world();
    }
    match &ty.kind {
        TypeKind::Pack(p) => {
            let ghost ms = crate::compile::types::struct_members_model(p.members@);
            let mut i: usize = 0;
            while i < p.members.len()
                invariant
                    ctx.ready(),
                    w == ctx.world_model(),
                    world_ready(w),
                    has_id(w.defs, id),
                    kind_of(w, id) == (KindModel::Pack { members: ms }),
                    ms == crate::compile::types::struct_members_model(p.members@),
                    out.depth() == d,
                    out.same_marks(old(out)),
                    d == old(out).depth(),
                    t0 == old(out).text(),
                    i <= ms.len(),
                    try_lines_of(t0, d, ms, pack_line(w, ns), i as int) == Ok::<Seq<char>, Seq<char>>(out.text()),
                decreases p.members.len() - i,
            {
                let m = &p.members[i];
                proof {
                    assert(ms[i as int] == m@);
                    assert(crate::compile::verify::refs(kind_of(w, id))[i as int] == m.ty);
                    lemma_ref_defined(w, id, i as int);
                }
                let mt = match ctx.cpp_type(m.ty, ns) {
                    Ok(x) => x,
                    Err(e) => {
                        proof {
                            super::rust_defs::lemma_try_lines_err(t0, d, ms, pack_line(w, ns), i + 1, ms.len() as int);
                        }
                        return Err(e);
                    },
                };
                let n = sanitize(m.name.as_str());
                out.wln(&cat4(mt.as_str(), " ", n.as_str(), ";"));
                i = i + 1;
            }
        },
        TypeKind::Sequence(p) => {
            let ghost ms = crate::compile::types::struct_members_model(p.members@);
            let mut i: usize = 0;
            while i < p.members.len()
                invariant
                    ctx.ready(),
                    w == ctx.world_model(),
                    world_ready(w),
                    has_id(w.defs, id),
                    kind_of(w, id) == (KindModel::Sequence { members: ms }),
                    ms == crate::compile::types::struct_members_model(p.members@),
                    out.depth() == d,
                    out.same_marks(old(out)),
                    d == old(out).depth(),
                    t0 == old(out).text(),
                    i <= ms.len(),
                    try_lines_of(t0, d, ms, seq_line(w, ns), i as int) == Ok::<Seq<char>, Seq<char>>(out.text()),
                decreases p.members.len() - i,
            {
                let m = &p.members[i];
                proof {
                    assert(ms[i as int] == m@);
                    assert(crate::compile::verify::refs(kind_of(w, id))[i as int] == m.ty);
                    lemma_ref_defined(w, id, i as int);
                }
                let mt = match ctx.cpp_type(m.ty, ns) {
                    Ok(x) => x,
                    Err(e) => {
                        proof {
                            super::rust_defs::lemma_try_lines_err(t0, d, ms, seq_line(w, ns), i + 1, ms.len() as int);
                        }
                        return Err(e);
                    },
                };
                let r = match ns {
                    Namespace::Read => "",
                    Namespace::Write => "const&",
                };
                let n = sanitize(m.name.as_str());
                out.wln(&cat6(mt.as_str(), " ", r, " ", n.as_str(), ";"));
                i = i + 1;
            }
        },
        TypeKind::Bitfld(b) => {
            let ghost ms = crate::compile::types::bitfld_members_model(b.members@);
            let mut i: usize = 0;
            while i < b.members.len()
                invariant
                    ctx.ready(),
                    w == ctx.world_model(),
                    world_ready(w),
                    has_id(w.defs, id),
                    kind_of(w, id) == (KindModel::Bitfld { underlying: b.underlying, members: ms }),
                    ms == crate::compile::types::bitfld_members_model(b.members@),
                    out.depth() == d,
                    out.same_marks(old(out)),
                    d == old(out).depth(),
                    t0 == old(out).text(),
                    i <= ms.len(),
                    try_lines_of(t0, d, ms, bit_line(w, ns), i as int) == Ok::<Seq<char>, Seq<char>>(out.text()),
                decreases b.members.len() - i,
            {
                let m = &b.members[i];
                proof {
                    assert(ms[i as int] == m@);
                    assert(crate::compile::verify::refs(kind_of(w, id))[i + 1] == m.underlying);
                    lemma_ref_defined(w, id, i + 1);
                }
                let mt = match ctx.cpp_type(m.underlying, ns) {
                    Ok(x) => x,
                    Err(e) => {
                        proof {
                            super::rust_defs::lemma_try_lines_err(t0, d, ms, bit_line(w, ns), i + 1, ms.len() as int);
                        }
                        return Err(e);
                    },
                };
                let n = sanitize(m.name.as_str());
                out.wln(&cat4(mt.as_str(), " ", n.as_str(), "{};"));
                i = i + 1;
            }
        },
        _ => {},
    }
    Ok(())
}

/// Writes the definition of `id` in `ns`, then a blank line.
pub fn emit_type_def(ctx: &CppContext, out: &mut CodeWriter, id: TypeID, ty: &Type, ns: Namespace) -> (r: Result<
    (),
    String,
>)
    requires
        ctx.ready(),
        has_id(ctx.world_model().defs, id),
        ty@ == def_of(ctx.world_model().defs, id),
        old(out).braced(),
        old(out).depth() + 8 < usize::MAX,
    ensures
        final(out).depth() == old(out).depth(),
        final(out).same_marks(old(out)),
        match (r, def_spec(ctx.world_model(), old(out).text(), old(out).depth(), id, ns)) {
            (Ok(_), Ok(t)) => final(out).text() == t,
            (Err(a), Err(b)) => a@ == b,
            _ => false,
        },
{
    let ghost w = ctx.world_model();
    let ghost d = out.depth();
    proof {
        lemma_braces();
        ctx.lemma_ready_world();
    }
    let name = ctx.name_of(id, ns);
    match &ty.kind {
        TypeKind::Pack(_) => {
            out.wln("#pragma pack(push, 1)");
            out.wln(&cat2("struct ", name.as_str()));
            out.indent();
            match emit_member_lines(ctx, out, id, ty, ns) {
                Ok(()) => {},
                Err(e) => {
                    out.dedent();
                    return Err(e);
                },
            }
            out.dedent();
            out.wln(";");
            out.wln("#pragma pack(pop)");
            out.wln(&cat3("static_assert(std::is_trivially_copyable_v<", name.as_str(), ">, \"pack must be POD\");"));
        },
        TypeKind::Enum(e) => {
            proof {
                assert(crate::compile::verify::refs(kind_of(w, id))[0] == e.underlying);
                lemma_ref_defined(w, id, 0);
            }
            let base = ctx.cpp_type(e.underlying, ns)?;
            out.wln(&cat5("enum class ", name.as_str(), " : ", base.as_str(), " "));
            out.indent();
            let ghost t1 = out.text();
            let ghost ems = crate::intermediate::ast::enum_members_model(e.members@);
            let mut i: usize = 0;
            while i < e.members.len()
                invariant
                    out.depth() == d + 1,
                    out.braced(),
                    ems == crate::intermediate::ast::enum_members_model(e.members@),
                    i <= ems.len(),
                    out.text() == lines_of(t1, d + 1, ems, enum_line(), i as int),
                decreases e.members.len() - i,
            {
                let m = &e.members[i];
                let n = sanitize(m.name.as_str());
                let v = crate::text::i64_to_string(m.value);
                out.wln(&cat4(n.as_str(), " = ", v.as_str(), ","));
                i = i + 1;
            }
            if let Some(df) = &e.default {
                let n = sanitize(df.name.as_str());
                let v = crate::text::i64_to_string(df.value);
                out.wln(&cat4(n.as_str(), " = ", v.as_str(), ","));
            }
            out.dedent();
            out.wln(";");
        },
        TypeKind::Bitfld(_) | TypeKind::Sequence(_) => {
            out.wln(&cat3("struct ", name.as_str(), " "));
            out.indent();
            match emit_member_lines(ctx, out, id, ty, ns) {
                Ok(()) => {},
                Err(e) => {
                    out.dedent();
                    return Err(e);
                },
            }
            out.dedent();
            out.wln(";");
        },
        TypeKind::Variant(v) => {
            let ghost ms = crate::compile::types::variant_members_model(v.members@);
            let mut joined = String::new();
            let mut i: usize = 0;
            while i < v.members.len()
                invariant
                    ctx.ready(),
                    w == ctx.world_model(),
                    world_ready(w),
                    has_id(w.defs, id),
                    kind_of(w, id) == (KindModel::Variant { discriminant: v.discriminant, members: ms }),
                    ms == crate::compile::types::variant_members_model(v.members@),
                    i <= ms.len(),
                    payloads(w, ns, ms, i as int) == Ok::<Seq<char>, Seq<char>>(joined@),
                decreases v.members.len() - i,
            {
                let m = &v.members[i];
                proof {
                    assert(ms[i as int] == m@);
                    assert(crate::compile::verify::refs(kind_of(w, id))[i + 1] == m.ty);
                    lemma_ref_defined(w, id, i + 1);
                }
                let target = match ctx.cpp_type(m.ty, ns) {
                    Ok(x) => x,
                    Err(e) => {
                        proof {
                            lemma_payloads_err(w, ns, ms, i + 1, ms.len() as int);
                        }
                        return Err(e);
                    },
                };
                let p = if ctx.is_void(m.ty) {
                    "std::monostate".to_string()
                } else {
                    match ns {
                        Namespace::Write => cat2(target.as_str(), " const*"),
                        Namespace::Read => target,
                    }
                };
                if i == 0 {
                    joined = p;
                } else {
                    joined = cat3(joined.as_str(), ", ", p.as_str());
                }
                i = i + 1;
            }
            out.wln(&cat5("struct ", name.as_str(), " : std::variant<", joined.as_str(), ">"));
            out.indent();
            out.wln("using variant::variant;");
            out.wln("using variant::operator=;");
            out.dedent();
            out.wln(";");
        },
        _ => {
            emit_alias_or_array(ctx, out, id, ty, ns)?;
        },
    }
    out.newline();
    Ok(())
}

} // verus!
