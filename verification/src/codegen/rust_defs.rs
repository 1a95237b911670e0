//! Type definitions of the Rust backend: owned types for the `read` module and view
//! types for the `write` module.
use vstd::prelude::*;

use super::rust::{
    case_name_spec, kind_of, lemma_resolve_alias, read_decl_type_spec, resolve_alias_spec,
    rust_name, rust_type_spec, RustContext,
};
use super::{
    cat2, cat3, cat4, cat5, cat6, cat7, lemma_braces, lines_of, put, rust_ident, sanitize,
    try_lines_of, CodeWriter,
};
use crate::compile::types::{
    def_of, has_id, BitfldMemberModel, KindModel, StructMemberModel, Type, TypeID, TypeKind,
    VariantMemberModel,
};
use crate::intermediate::ast::EnumMemberModel;
use crate::text::{decimal, signed_decimal};

verus! {

pub open spec fn enum_line() -> spec_fn(EnumMemberModel) -> Seq<char> {
    |m: EnumMemberModel| rust_ident(m.name) + " = "@ + signed_decimal(m.value as int) + ","@
}

/// The values of an enum, then its default.
pub open spec fn enum_values_spec(
    t: Seq<char>,
    d: nat,
    members: Seq<EnumMemberModel>,
    default: Option<EnumMemberModel>,
) -> Seq<char> {
    let t1 = lines_of(t, d, members, enum_line(), members.len() as int);
    match default {
        Some(m) => put(t1, d, enum_line()(m)),
        None => t1,
    }
}

/// `pub name: type,` with the owned type of a bitfield member.
pub open spec fn bit_field_line(w: crate::compile::types::WorldModel) -> spec_fn(BitfldMemberModel) -> Result<
    Seq<char>,
    Seq<char>,
> {
    |m: BitfldMemberModel|
        match rust_type_spec(w, m.underlying) {
            Ok(ty) => Ok("pub "@ + rust_ident(m.name) + ": "@ + ty + ","@),
            Err(e) => Err(e),
        }
}

/// `pub name: type,` with the owned type of a pack member.
pub open spec fn pack_field_line(w: crate::compile::types::WorldModel) -> spec_fn(StructMemberModel) -> Result<
    Seq<char>,
    Seq<char>,
> {
    |m: StructMemberModel|
        match rust_type_spec(w, m.ty) {
            Ok(ty) => Ok("pub "@ + rust_ident(m.name) + ": "@ + ty + ","@),
            Err(e) => Err(e),
        }
}

/// `pub name: type,` with the declared type of a sequence member.
pub open spec fn seq_field_line(w: crate::compile::types::WorldModel) -> spec_fn(StructMemberModel) -> Result<
    Seq<char>,
    Seq<char>,
> {
    |m: StructMemberModel|
        match read_decl_type_spec(w, m.ty) {
            Ok(ty) => Ok("pub "@ + rust_ident(m.name) + ": "@ + ty + ","@),
            Err(e) => Err(e),
        }
}

pub open spec fn debug_let_line() -> spec_fn(StructMemberModel) -> Seq<char> {
    |m: StructMemberModel| "let "@ + m.name + " = self."@ + m.name + ";"@
}

pub open spec fn debug_field_line() -> spec_fn(StructMemberModel) -> Seq<char> {
    |m: StructMemberModel| ".field(\""@ + m.name + "\", &"@ + m.name + ")"@
}

pub open spec fn clone_line() -> spec_fn(StructMemberModel) -> Seq<char> {
    |m: StructMemberModel| m.name + ": self."@ + m.name + ","@
}

pub open spec fn eq_check(m: StructMemberModel) -> Seq<char> {
    "self."@ + m.name + " == other."@ + m.name
}

/// The comparisons of the first `k` members joined by `&&`.
pub open spec fn eq_checks(ms: Seq<StructMemberModel>, k: int) -> Seq<char>
    decreases k,
{
    if k <= 0 || k > ms.len() {
        Seq::empty()
    } else if k == 1 {
        eq_check(ms[0])
    } else {
        eq_checks(ms, k - 1) + "&&"@ + eq_check(ms[k - 1])
    }
}

/// The case of a variant for a member: `Case(Type),`, or `Case,` when the payload is void.
pub open spec fn case_line(w: crate::compile::types::WorldModel) -> spec_fn(VariantMemberModel) -> Result<
    Seq<char>,
    Seq<char>,
> {
    |m: VariantMemberModel|
        {
            let case = case_name_spec(w, m.ty, m.value);
            if kind_of(w, resolve_alias_spec(w, m.ty)) is Void {
                Ok(case + ","@)
            } else {
                match read_decl_type_spec(w, m.ty) {
                    Ok(mty) => Ok(case + "("@ + mty + "),"@),
                    Err(e) => Err(e),
                }
            }
        }
}


/// The trait impls and helpers that follow a pack's struct in the `read` module.
pub open spec fn pack_extras_spec(t: Seq<char>, d: nat, name: Seq<char>, ms: Seq<StructMemberModel>) -> Seq<char> {
    let n = ms.len() as int;
    let t1 = put(put(t, d, "impl std::fmt::Debug for "@ + name), d, "{"@);
    let t2 = put(put(t1, d + 1, "fn fmt(&self, f: &mut std::fmt::Formatter<'_>) -> std::fmt::Result"@), d + 1, "{"@);
    let t3 = lines_of(t2, d + 2, ms, debug_let_line(), n);
    let t4 = put(t3, d + 2, "f.debug_struct(\""@ + name + "\")"@);
    let t5 = lines_of(t4, d + 2, ms, debug_field_line(), n);
    let t6 = put(put(put(t5, d + 2, ".finish()"@), d + 1, "}"@), d, "}"@);
    let c1 = put(put(t6, d, "impl Clone for "@ + name), d, "{"@);
    let c2 = put(put(c1, d + 1, "fn clone(&self) -> Self"@), d + 1, "{"@);
    let c3 = put(put(c2, d + 2, "Self"@), d + 2, "{"@);
    let c4 = lines_of(c3, d + 3, ms, clone_line(), n);
    let c5 = put(put(put(c4, d + 2, "}"@), d + 1, "}"@), d, "}"@);
    let e1 = put(put(c5, d, "impl PartialEq for "@ + name), d, "{"@);
    let e2 = put(put(e1, d + 1, "fn eq(&self, other: &Self) -> bool"@), d + 1, "{"@);
    let e3 = put(put(put(e2, d + 2, "return "@ + eq_checks(ms, n)), d + 1, "}"@), d, "}"@);
    let z1 = put(e3, d, "impl Copy for "@ + name + " { }"@);
    let z2 = put(z1, d, "unsafe impl bytemuck::Zeroable for "@ + name + " { }"@);
    let z3 = put(z2, d, "unsafe impl bytemuck::Pod for "@ + name + " { }"@);
    let f1 = put(put(z3, d, "impl Default for "@ + name), d, "{"@);
    let f2 = put(put(f1, d + 1, "fn default() -> Self"@), d + 1, "{"@);
    let f3 = put(put(put(f2, d + 2, "<"@ + name + " as bytemuck::Zeroable>::zeroed()"@), d + 1, "}"@), d, "}"@);
    put(f3, d, ""@)
}

/// The constant `id` as written in both modules: `pub const NAME : Type = value;`, then a
/// blank line.
pub open spec fn const_def_spec(w: crate::compile::types::WorldModel, t: Seq<char>, d: nat, id: TypeID) -> Result<
    Seq<char>,
    Seq<char>,
> {
    match kind_of(w, id) {
        KindModel::Const { ty, value } => match read_decl_type_spec(w, ty) {
            Err(e) => Err(e),
            Ok(target) => Ok(
                put(
                    put(
                        t,
                        d,
                        "pub const "@ + rust_name(w, id) + " : "@ + target + " = "@ + signed_decimal(value as int)
                            + ";"@,
                    ),
                    d,
                    ""@,
                ),
            ),
        },
        _ => Ok(t),
    }
}

/// The definition of `id` in the `read` module, written at indentation `d` after `t`.
pub open spec fn read_def_spec(w: crate::compile::types::WorldModel, t: Seq<char>, d: nat, id: TypeID) -> Result<
    Seq<char>,
    Seq<char>,
> {
    let name = rust_name(w, id);
    match kind_of(w, id) {
        KindModel::Alias { other } => match read_decl_type_spec(w, other) {
            Err(e) => Err(e),
            Ok(target) => Ok(
                put(
                    put(
                        put(t, d, "#[derive(Debug, Clone, PartialEq)]"@),
                        d,
                        "pub struct "@ + name + "(pub "@ + target + ");"@,
                    ),
                    d,
                    ""@,
                ),
            ),
        },
        KindModel::Enum { underlying, members, default } => match rust_type_spec(w, underlying) {
            Err(e) => Err(e),
            Ok(base) => {
                let t1 = put(
                    put(
                        put(put(t, d, "#[repr("@ + base + ")]"@), d, "#[derive(Debug, Clone, Copy, PartialEq, Eq)]"@),
                        d,
                        "pub enum "@ + name,
                    ),
                    d,
                    "{"@,
                );
                Ok(put(put(enum_values_spec(t1, d + 1, members, default), d, "}"@), d, ""@))
            },
        },
        KindModel::Bitfld { members, .. } => {
            let t1 = put(
                put(put(t, d, "#[derive(Debug, Clone, PartialEq)]"@), d, "pub struct "@ + name),
                d,
                "{"@,
            );
            match try_lines_of(t1, d + 1, members, bit_field_line(w), members.len() as int) {
                Err(e) => Err(e),
                Ok(t2) => Ok(put(put(t2, d, "}"@), d, ""@)),
            }
        },
        KindModel::Pack { members } => {
            let t1 = put(put(put(t, d, "#[repr(C, packed(1))]"@), d, "pub struct "@ + name), d, "{"@);
            match try_lines_of(t1, d + 1, members, pack_field_line(w), members.len() as int) {
                Err(e) => Err(e),
                Ok(t2) => Ok(pack_extras_spec(put(t2, d, "}"@), d, name, members)),
            }
        },
        KindModel::Sequence { members } => {
            let t1 = put(
                put(put(t, d, "#[derive(Debug, Clone, PartialEq)]"@), d, "pub struct "@ + name),
                d,
                "{"@,
            );
            match try_lines_of(t1, d + 1, members, seq_field_line(w), members.len() as int) {
                Err(e) => Err(e),
                Ok(t2) => Ok(put(put(t2, d, "}"@), d, ""@)),
            }
        },
        KindModel::Variant { members, .. } => {
            let t1 = put(
                put(put(t, d, "#[derive(Debug, Clone, PartialEq)]"@), d, "pub enum "@ + name),
                d,
                "{"@,
            );
            match try_lines_of(t1, d + 1, members, case_line(w), members.len() as int) {
                Err(e) => Err(e),
                Ok(t2) => Ok(put(put(t2, d, "}"@), d, ""@)),
            }
        },
        KindModel::DynamicArray { value_type, .. } => match read_decl_type_spec(w, value_type) {
            Err(e) => Err(e),
            Ok(elem) => Ok(put(put(t, d, "pub type "@ + name + " = Vec<"@ + elem + ">;"@), d, ""@)),
        },
        KindModel::FixedArray { count, value_type } => match read_decl_type_spec(w, value_type) {
            Err(e) => Err(e),
            Ok(elem) => Ok(
                put(
                    put(t, d, "pub type "@ + name + " = ["@ + elem + "; "@ + decimal(count as nat) + "];"@),
                    d,
                    ""@,
                ),
            ),
        },
        KindModel::Const { .. } => const_def_spec(w, t, d, id),
        KindModel::Primitive { .. } | KindModel::Void => Ok(t),
    }
}


pub proof fn lemma_try_lines_err<A>(
    t: Seq<char>,
    d: nat,
    xs: Seq<A>,
    f: spec_fn(A) -> Result<Seq<char>, Seq<char>>,
    k: int,
    n: int,
)
    requires
        0 <= k <= n <= xs.len(),
        try_lines_of(t, d, xs, f, k) is Err,
    ensures
        try_lines_of(t, d, xs, f, n) == try_lines_of(t, d, xs, f, k),
    decreases n - k,
{
    if n > k {
        lemma_try_lines_err(t, d, xs, f, k, n - 1);
    }
}

/// A referenced identifier of a definition in a ready world is defined.
pub proof fn lemma_ref_defined(w: crate::compile::types::WorldModel, id: TypeID, j: int)
    requires
        super::rust::world_ready(w),
        has_id(w.defs, id),
        0 <= j < crate::compile::verify::refs(kind_of(w, id)).len(),
    ensures
        has_id(w.defs, crate::compile::verify::refs(kind_of(w, id))[j]),
{
    crate::compile::verify::lemma_closed_ref(w.defs, id, crate::compile::verify::refs(kind_of(w, id))[j]);
}

fn emit_read_enum_def(ctx: &RustContext, out: &mut CodeWriter, id: TypeID, ty: &Type) -> (r: Result<(), String>)
    requires
        ty.kind is Enum,
        ctx.ready(),
        has_id(ctx.world_model().defs, id),
        ty@ == def_of(ctx.world_model().defs, id),
        old(out).braced(),
        old(out).depth() + 8 < usize::MAX,
    ensures
        final(out).depth() == old(out).depth(),
        final(out).same_marks(old(out)),
        match (r, read_def_spec(ctx.world_model(), old(out).text(), old(out).depth(), id)) {
            (Ok(_), Ok(t)) => final(out).text() == t,
            (Err(a), Err(b)) => a@ == b,
            _ => false,
        },
{
    let ghost w = ctx.world_model();
    let ghost d = out.depth();
    proof {
        lemma_braces();
        ctx.lemma_ready_world();
    }
    let TypeKind::Enum(enm) = &ty.kind else {
        return Ok(());
    };
    proof {
        assert(crate::compile::verify::refs(kind_of(w, id))[0] == enm.underlying);
        lemma_ref_defined(w, id, 0);
    }
    let name = ctx.name_of(id);
    let base = ctx.rust_type(enm.underlying)?;
    out.wln(&cat3("#[repr(", base.as_str(), ")]"));
    out.wln("#[derive(Debug, Clone, Copy, PartialEq, Eq)]");
    out.wln(&cat2("pub enum ", name.as_str()));
    out.indent();
    let ghost t1 = out.text();
    let ghost ms = crate::intermediate::ast::enum_members_model(enm.members@);
    let mut i: usize = 0;
    while i < enm.members.len()
        invariant
            out.depth() == d + 1,
            d == old(out).depth(),
            old(out).braced(),
            d + 8 < usize::MAX,
            out.braced(),
            ms == crate::intermediate::ast::enum_members_model(enm.members@),
            i <= ms.len(),
            out.text() == lines_of(t1, d + 1, ms, enum_line(), i as int),
        decreases enm.members.len() - i,
    {
        let m = &enm.members[i];
        let v = crate::text::i64_to_string(m.value);
        let n = sanitize(m.name.as_str());
        out.wln(&cat3(n.as_str(), " = ", cat2(v.as_str(), ",").as_str()));
        assert(n@ + " = "@ + (v@ + ","@) =~= enum_line()(ms[i as int]));
        i = i + 1;
    }
    if let Some(default) = &enm.default {
        let v = crate::text::i64_to_string(default.value);
        let n = sanitize(default.name.as_str());
        out.wln(&cat3(n.as_str(), " = ", cat2(v.as_str(), ",").as_str()));
        assert(n@ + " = "@ + (v@ + ","@) =~= enum_line()(default@));
    }
    out.dedent();
    out.newline();
    Ok(())
}

fn emit_read_bitfld_def(ctx: &RustContext, out: &mut CodeWriter, id: TypeID, ty: &Type) -> (r: Result<(), String>)
    requires
        ty.kind is Bitfld,
        ctx.ready(),
        has_id(ctx.world_model().defs, id),
        ty@ == def_of(ctx.world_model().defs, id),
        old(out).braced(),
        old(out).depth() + 8 < usize::MAX,
    ensures
        final(out).depth() == old(out).depth(),
        final(out).same_marks(old(out)),
        match (r, read_def_spec(ctx.world_model(), old(out).text(), old(out).depth(), id)) {
            (Ok(_), Ok(t)) => final(out).text() == t,
            (Err(a), Err(b)) => a@ == b,
            _ => false,
        },
{
    let ghost w = ctx.world_model();
    let ghost d = out.depth();
    proof {
        lemma_braces();
        ctx.lemma_ready_world();
    }
    let TypeKind::Bitfld(b) = &ty.kind else {
        return Ok(());
    };
    let name = ctx.name_of(id);
    out.wln("#[derive(Debug, Clone, PartialEq)]");
    out.wln(&cat2("pub struct ", name.as_str()));
    out.indent();
    let ghost t1 = out.text();
    let ghost ms = crate::compile::types::bitfld_members_model(b.members@);
    let ghost f = bit_field_line(w);
    let ghost goal = match try_lines_of(t1, d + 1, ms, f, ms.len() as int) {
        Err(e) => Err(e),
        Ok(t2) => Ok(put(put(t2, d, "}"@), d, ""@)),
    };
    assert(read_def_spec(w, old(out).text(), d, id) == goal);
    let mut i: usize = 0;
    while i < b.members.len()
        invariant
            read_def_spec(w, old(out).text(), d, id) == goal,
            goal == (match try_lines_of(t1, d + 1, ms, f, ms.len() as int) {
                Err(e) => Err(e),
                Ok(t2) => Ok(put(put(t2, d, "}"@), d, ""@)),
            }),
            ctx.ready(),
            w == ctx.world_model(),
            has_id(w.defs, id),
            kind_of(w, id) == (KindModel::Bitfld { underlying: b.underlying, members: ms }),
            out.depth() == d + 1,
            d == old(out).depth(),
            old(out).braced(),
            d + 8 < usize::MAX,
            out.braced(),
            ms == crate::compile::types::bitfld_members_model(b.members@),
            f == bit_field_line(w),
            i <= ms.len(),
            super::rust::world_ready(w),
            try_lines_of(t1, d + 1, ms, f, i as int) == Ok::<Seq<char>, Seq<char>>(out.text()),
        decreases b.members.len() - i,
    {
        let m = &b.members[i];
        proof {
            assert(ms[i as int].underlying == m.underlying);
            assert(crate::compile::verify::refs(kind_of(w, id))[i + 1] == m.underlying);
            lemma_ref_defined(w, id, i + 1);
        }
        let field_ty = match ctx.rust_type(m.underlying) {
            Ok(x) => x,
            Err(e) => {
                proof {
                    lemma_try_lines_err(t1, d + 1, ms, f, i + 1, ms.len() as int);
                }
                out.dedent();
                return Err(e);
            },
        };
        let n = sanitize(m.name.as_str());
        out.wln(&cat5("pub ", n.as_str(), ": ", field_ty.as_str(), ","));
        i = i + 1;
    }
    out.dedent();
    out.newline();
    Ok(())
}


/// Writes the constant `id`, defined as `ty` (see `const_def_spec`).
fn emit_const_def(ctx: &RustContext, out: &mut CodeWriter, id: TypeID, ty: &Type) -> (r: Result<(), String>)
    requires
        ctx.ready(),
        has_id(ctx.world_model().defs, id),
        ty@ == def_of(ctx.world_model().defs, id),
        ty.kind is Const,
    ensures
        final(out).depth() == old(out).depth(),
        final(out).same_marks(old(out)),
        match (r, const_def_spec(ctx.world_model(), old(out).text(), old(out).depth(), id)) {
            (Ok(_), Ok(t)) => final(out).text() == t,
            (Err(a), Err(b)) => a@ == b,
            _ => false,
        },
{
    let ghost w = ctx.world_model();
    proof {
        ctx.lemma_ready_world();
    }
    let TypeKind::Const(c) = &ty.kind else {
        return Ok(());
    };
    proof {
        assert(crate::compile::verify::refs(kind_of(w, id))[0] == c.ty);
        lemma_ref_defined(w, id, 0);
    }
    let name = ctx.name_of(id);
    let target_ty = ctx.rust_read_decl_type(c.ty)?;
    let value = crate::text::i64_to_string(c.value);
    out.wln(&cat7("pub const ", name.as_str(), " : ", target_ty.as_str(), " = ", value.as_str(), ";"));
    out.newline();
    Ok(())
}

fn emit_read_alias_def(ctx: &RustContext, out: &mut CodeWriter, id: TypeID, ty: &Type) -> (r: Result<(), String>)
    requires
        ctx.ready(),
        has_id(ctx.world_model().defs, id),
        ty@ == def_of(ctx.world_model().defs, id),
        old(out).braced(),
        old(out).depth() + 8 < usize::MAX,
        ty.kind is Alias,
    ensures
        final(out).depth() == old(out).depth(),
        final(out).same_marks(old(out)),
        match (r, read_def_spec(ctx.world_model(), old(out).text(), old(out).depth(), id)) {
            (Ok(_), Ok(t)) => final(out).text() == t,
            (Err(a), Err(b)) => a@ == b,
            _ => false,
        },
{
    let ghost w = ctx.world_model();
    proof {
        ctx.lemma_ready_world();
    }
    let TypeKind::Alias(alias) = &ty.kind else {
        return Ok(());
    };
    proof {
        assert(crate::compile::verify::refs(kind_of(w, id))[0] == alias.other);
        lemma_ref_defined(w, id, 0);
    }
    let name = ctx.name_of(id);
    let target_ty = ctx.rust_read_decl_type(alias.other)?;
    out.wln("#[derive(Debug, Clone, PartialEq)]");
    out.wln(&cat5("pub struct ", name.as_str(), "(pub ", target_ty.as_str(), ");"));
    out.newline();
    Ok(())
}

fn emit_read_array_def(ctx: &RustContext, out: &mut CodeWriter, id: TypeID, ty: &Type) -> (r: Result<(), String>)
    requires
        ctx.ready(),
        has_id(ctx.world_model().defs, id),
        ty@ == def_of(ctx.world_model().defs, id),
        old(out).braced(),
        old(out).depth() + 8 < usize::MAX,
        ty.kind is DynamicArray || ty.kind is FixedArray,
    ensures
        final(out).depth() == old(out).depth(),
        final(out).same_marks(old(out)),
        match (r, read_def_spec(ctx.world_model(), old(out).text(), old(out).depth(), id)) {
            (Ok(_), Ok(t)) => final(out).text() == t,
            (Err(a), Err(b)) => a@ == b,
            _ => false,
        },
{
    let ghost w = ctx.world_model();
    proof {
        ctx.lemma_ready_world();
    }
    let name = ctx.name_of(id);
    match &ty.kind {
        TypeKind::DynamicArray(arr) => {
            proof {
                assert(crate::compile::verify::refs(kind_of(w, id))[1] == arr.value_type);
                lemma_ref_defined(w, id, 1);
            }
            let elem = ctx.rust_read_decl_type(arr.value_type)?;
            out.wln(&cat5("pub type ", name.as_str(), " = Vec<", elem.as_str(), ">;"));
            out.newline();
        },
        TypeKind::FixedArray(arr) => {
            proof {
                assert(crate::compile::verify::refs(kind_of(w, id))[0] == arr.value_type);
                lemma_ref_defined(w, id, 0);
            }
            let elem = ctx.rust_read_decl_type(arr.value_type)?;
            let count = crate::text::u64_to_string(arr.count);
            out.wln(&cat7("pub type ", name.as_str(), " = [", elem.as_str(), "; ", count.as_str(), "];"));
            out.newline();
        },
        _ => {},
    }
    Ok(())
}

fn emit_read_seq_def(ctx: &RustContext, out: &mut CodeWriter, id: TypeID, ty: &Type) -> (r: Result<(), String>)
    requires
        ctx.ready(),
        has_id(ctx.world_model().defs, id),
        ty@ == def_of(ctx.world_model().defs, id),
        old(out).braced(),
        old(out).depth() + 8 < usize::MAX,
        ty.kind is Sequence,
    ensures
        final(out).depth() == old(out).depth(),
        final(out).same_marks(old(out)),
        match (r, read_def_spec(ctx.world_model(), old(out).text(), old(out).depth(), id)) {
            (Ok(_), Ok(t)) => final(out).text() == t,
            (Err(a), Err(b)) => a@ == b,
            _ => false,
        },
{
    let ghost w = ctx.world_model();
    let ghost d = out.depth();
    proof {
        lemma_braces();
        ctx.lemma_ready_world();
    }
    let TypeKind::Sequence(sq) = &ty.kind else {
        return Ok(());
    };
    let name = ctx.name_of(id);
    out.wln("#[derive(Debug, Clone, PartialEq)]");
    out.wln(&cat2("pub struct ", name.as_str()));
    out.indent();
    let ghost t1 = out.text();
    let ghost ms = crate::compile::types::struct_members_model(sq.members@);
    let ghost f = seq_field_line(w);
    let ghost goal = match try_lines_of(t1, d + 1, ms, f, ms.len() as int) {
        Err(e) => Err(e),
        Ok(t2) => Ok(put(put(t2, d, "}"@), d, ""@)),
    };
    assert(read_def_spec(w, old(out).text(), d, id) == goal);
    let mut i: usize = 0;
    while i < sq.members.len()
        invariant
            read_def_spec(w, old(out).text(), d, id) == goal,
            goal == (match try_lines_of(t1, d + 1, ms, f, ms.len() as int) {
                Err(e) => Err(e),
                Ok(t2) => Ok(put(put(t2, d, "}"@), d, ""@)),
            }),
            ctx.ready(),
            w == ctx.world_model(),
            super::rust::world_ready(w),
            has_id(w.defs, id),
            kind_of(w, id) == (KindModel::Sequence { members: ms }),
            out.depth() == d + 1,
            d == old(out).depth(),
            old(out).braced(),
            d + 8 < usize::MAX,
            out.braced(),
            ms == crate::compile::types::struct_members_model(sq.members@),
            f == seq_field_line(w),
            i <= ms.len(),
            try_lines_of(t1, d + 1, ms, f, i as int) == Ok::<Seq<char>, Seq<char>>(out.text()),
        decreases sq.members.len() - i,
    {
        let m = &sq.members[i];
        proof {
            assert(ms[i as int].ty == m.ty);
            assert(crate::compile::verify::refs(kind_of(w, id))[i as int] == m.ty);
            lemma_ref_defined(w, id, i as int);
        }
        let field_ty = match ctx.rust_read_decl_type(m.ty) {
            Ok(x) => x,
            Err(e) => {
                proof {
                    lemma_try_lines_err(t1, d + 1, ms, f, i + 1, ms.len() as int);
                }
                out.dedent();
                return Err(e);
            },
        };
        let n = sanitize(m.name.as_str());
        out.wln(&cat5("pub ", n.as_str(), ": ", field_ty.as_str(), ","));
        i = i + 1;
    }
    out.dedent();
    out.newline();
    Ok(())
}

fn emit_read_variant_def(ctx: &RustContext, out: &mut CodeWriter, id: TypeID, ty: &Type) -> (r: Result<(), String>)
    requires
        ctx.ready(),
        has_id(ctx.world_model().defs, id),
        ty@ == def_of(ctx.world_model().defs, id),
        old(out).braced(),
        old(out).depth() + 8 < usize::MAX,
        ty.kind is Variant,
    ensures
        final(out).depth() == old(out).depth(),
        final(out).same_marks(old(out)),
        match (r, read_def_spec(ctx.world_model(), old(out).text(), old(out).depth(), id)) {
            (Ok(_), Ok(t)) => final(out).text() == t,
            (Err(a), Err(b)) => a@ == b,
            _ => false,
        },
{
    let ghost w = ctx.world_model();
    let ghost d = out.depth();
    proof {
        lemma_braces();
        ctx.lemma_ready_world();
    }
    let TypeKind::Variant(v) = &ty.kind else {
        return Ok(());
    };
    let name = ctx.name_of(id);
    out.wln("#[derive(Debug, Clone, PartialEq)]");
    out.wln(&cat2("pub enum ", name.as_str()));
    out.indent();
    let ghost t1 = out.text();
    let ghost ms = crate::compile::types::variant_members_model(v.members@);
    let ghost f = case_line(w);
    let ghost goal = match try_lines_of(t1, d + 1, ms, f, ms.len() as int) {
        Err(e) => Err(e),
        Ok(t2) => Ok(put(put(t2, d, "}"@), d, ""@)),
    };
    assert(read_def_spec(w, old(out).text(), d, id) == goal);
    let mut i: usize = 0;
    while i < v.members.len()
        invariant
            read_def_spec(w, old(out).text(), d, id) == goal,
            goal == (match try_lines_of(t1, d + 1, ms, f, ms.len() as int) {
                Err(e) => Err(e),
                Ok(t2) => Ok(put(put(t2, d, "}"@), d, ""@)),
            }),
            ctx.ready(),
            w == ctx.world_model(),
            super::rust::world_ready(w),
            has_id(w.defs, id),
            kind_of(w, id) == (KindModel::Variant { discriminant: v.discriminant, members: ms }),
            out.depth() == d + 1,
            d == old(out).depth(),
            old(out).braced(),
            d + 8 < usize::MAX,
            out.braced(),
            ms == crate::compile::types::variant_members_model(v.members@),
            f == case_line(w),
            i <= ms.len(),
            try_lines_of(t1, d + 1, ms, f, i as int) == Ok::<Seq<char>, Seq<char>>(out.text()),
        decreases v.members.len() - i,
    {
        let m = &v.members[i];
        proof {
            assert(ms[i as int].ty == m.ty);
            assert(crate::compile::verify::refs(kind_of(w, id))[i + 1] == m.ty);
            lemma_ref_defined(w, id, i + 1);
            lemma_resolve_alias(w, m.ty);
        }
        let case_name = ctx.variant_case_name(m.ty, m.value);
        let resolved = ctx.resolve_alias(m.ty);
        let is_void = matches!(ctx.lookup(resolved).kind, TypeKind::Void);
        if is_void {
            out.wln(&cat2(case_name.as_str(), ","));
        } else {
            let mty = match ctx.rust_read_decl_type(m.ty) {
                Ok(x) => x,
                Err(e) => {
                    proof {
                        lemma_try_lines_err(t1, d + 1, ms, f, i + 1, ms.len() as int);
                    }
                    out.dedent();
                    return Err(e);
                },
            };
            out.wln(&cat4(case_name.as_str(), "(", mty.as_str(), "),"));
        }
        i = i + 1;
    }
    out.dedent();
    out.newline();
    Ok(())
}


/// Writes the trait impls and helpers that follow a pack's struct in the `read` module.
fn emit_pack_extras(out: &mut CodeWriter, name: &str, members: &Vec<crate::compile::types::StructMember>)
    requires
        old(out).braced(),
        old(out).depth() + 8 < usize::MAX,
    ensures
        final(out).depth() == old(out).depth(),
        final(out).same_marks(old(out)),
        final(out).text() == pack_extras_spec(
            old(out).text(),
            old(out).depth(),
            name@,
            crate::compile::types::struct_members_model(members@),
        ),
{
    let ghost d = out.depth();
    let ghost ms = crate::compile::types::struct_members_model(members@);
    proof {
        lemma_braces();
    }
    out.wln(&cat2("impl std::fmt::Debug for ", name));
    out.indent();
    out.wln("fn fmt(&self, f: &mut std::fmt::Formatter<'_>) -> std::fmt::Result");
    out.indent();
    {
        let ghost t0 = out.text();
        let mut i: usize = 0;
        while i < members.len()
            invariant
                out.depth() == d + 2,
                out.braced(),
                ms == crate::compile::types::struct_members_model(members@),
                i <= ms.len(),
                out.text() == lines_of(t0, d + 2, ms, debug_let_line(), i as int),
            decreases members.len() - i,
        {
            let m = &members[i];
            assert(ms[i as int].name == m.name@);
            out.wln(&cat5("let ", m.name.as_str(), " = self.", m.name.as_str(), ";"));
            i = i + 1;
        }
    }
    out.wln(&cat3("f.debug_struct(\"", name, "\")"));
    {
        let ghost t0 = out.text();
        let mut i: usize = 0;
        while i < members.len()
            invariant
                out.depth() == d + 2,
                out.braced(),
                ms == crate::compile::types::struct_members_model(members@),
                i <= ms.len(),
                out.text() == lines_of(t0, d + 2, ms, debug_field_line(), i as int),
            decreases members.len() - i,
        {
            let m = &members[i];
            assert(ms[i as int].name == m.name@);
            out.wln(&cat5(".field(\"", m.name.as_str(), "\", &", m.name.as_str(), ")"));
            i = i + 1;
        }
    }
    out.wln(".finish()");
    out.dedent();
    out.dedent();
    out.wln(&cat2("impl Clone for ", name));
    out.indent();
    out.wln("fn clone(&self) -> Self");
    out.indent();
    out.wln("Self");
    out.indent();
    {
        let ghost t0 = out.text();
        let mut i: usize = 0;
        while i < members.len()
            invariant
                out.depth() == d + 3,
                out.braced(),
                ms == crate::compile::types::struct_members_model(members@),
                i <= ms.len(),
                out.text() == lines_of(t0, d + 3, ms, clone_line(), i as int),
            decreases members.len() - i,
        {
            let m = &members[i];
            assert(ms[i as int].name == m.name@);
            out.wln(&cat4(m.name.as_str(), ": self.", m.name.as_str(), ","));
            i = i + 1;
        }
    }
    out.dedent();
    out.dedent();
    out.dedent();
    out.wln(&cat2("impl PartialEq for ", name));
    out.indent();
    out.wln("fn eq(&self, other: &Self) -> bool");
    out.indent();
    let mut checks = String::new();
    let mut i: usize = 0;
    while i < members.len()
        invariant
            ms == crate::compile::types::struct_members_model(members@),
            i <= ms.len(),
            checks@ == eq_checks(ms, i as int),
        decreases members.len() - i,
    {
        let m = &members[i];
        assert(ms[i as int].name == m.name@);
        if i > 0 {
            checks.append("&&");
        }
        let c = cat4("self.", m.name.as_str(), " == other.", m.name.as_str());
        checks.append(c.as_str());
        i = i + 1;
        assert(checks@ =~= eq_checks(ms, i as int));
    }
    out.wln(&cat2("return ", checks.as_str()));
    out.dedent();
    out.dedent();
    out.wln(&cat3("impl Copy for ", name, " { }"));
    out.wln(&cat3("unsafe impl bytemuck::Zeroable for ", name, " { }"));
    out.wln(&cat3("unsafe impl bytemuck::Pod for ", name, " { }"));
    out.wln(&cat2("impl Default for ", name));
    out.indent();
    out.wln("fn default() -> Self");
    out.indent();
    out.wln(&cat3("<", name, " as bytemuck::Zeroable>::zeroed()"));
    out.dedent();
    out.dedent();
    out.newline();
}

fn emit_read_pack_def(ctx: &RustContext, out: &mut CodeWriter, id: TypeID, ty: &Type) -> (r: Result<(), String>)
    requires
        ctx.ready(),
        has_id(ctx.world_model().defs, id),
        ty@ == def_of(ctx.world_model().defs, id),
        old(out).braced(),
        old(out).depth() + 8 < usize::MAX,
        ty.kind is Pack,
    ensures
        final(out).depth() == old(out).depth(),
        final(out).same_marks(old(out)),
        match (r, read_def_spec(ctx.world_model(), old(out).text(), old(out).depth(), id)) {
            (Ok(_), Ok(t)) => final(out).text() == t,
            (Err(a), Err(b)) => a@ == b,
            _ => false,
        },
{
    let ghost w = ctx.world_model();
    let ghost d = out.depth();
    proof {
        lemma_braces();
        ctx.lemma_ready_world();
    }
    let TypeKind::Pack(pk) = &ty.kind else {
        return Ok(());
    };
    let name = ctx.name_of(id);
    out.wln("#[repr(C, packed(1))]");
    out.wln(&cat2("pub struct ", name.as_str()));
    out.indent();
    let ghost t1 = out.text();
    let ghost ms = crate::compile::types::struct_members_model(pk.members@);
    let ghost f = pack_field_line(w);
    let ghost goal = match try_lines_of(t1, d + 1, ms, f, ms.len() as int) {
        Err(e) => Err(e),
        Ok(t2) => Ok(pack_extras_spec(put(t2, d, "}"@), d, name@, ms)),
    };
    assert(read_def_spec(w, old(out).text(), d, id) == goal);
    let mut i: usize = 0;
    while i < pk.members.len()
        invariant
            read_def_spec(w, old(out).text(), d, id) == goal,
            goal == (match try_lines_of(t1, d + 1, ms, f, ms.len() as int) {
                Err(e) => Err(e),
                Ok(t2) => Ok(pack_extras_spec(put(t2, d, "}"@), d, name@, ms)),
            }),
            ctx.ready(),
            w == ctx.world_model(),
            super::rust::world_ready(w),
            has_id(w.defs, id),
            kind_of(w, id) == (KindModel::Pack { members: ms }),
            out.depth() == d + 1,
            d == old(out).depth(),
            old(out).braced(),
            d + 8 < usize::MAX,
            out.braced(),
            ms == crate::compile::types::struct_members_model(pk.members@),
            f == pack_field_line(w),
            i <= ms.len(),
            try_lines_of(t1, d + 1, ms, f, i as int) == Ok::<Seq<char>, Seq<char>>(out.text()),
        decreases pk.members.len() - i,
    {
        let m = &pk.members[i];
        proof {
            assert(ms[i as int].ty == m.ty);
            assert(crate::compile::verify::refs(kind_of(w, id))[i as int] == m.ty);
            lemma_ref_defined(w, id, i as int);
        }
        let field_ty = match ctx.rust_type(m.ty) {
            Ok(x) => x,
            Err(e) => {
                proof {
                    lemma_try_lines_err(t1, d + 1, ms, f, i + 1, ms.len() as int);
                }
                out.dedent();
                return Err(e);
            },
        };
        let n = sanitize(m.name.as_str());
        out.wln(&cat5("pub ", n.as_str(), ": ", field_ty.as_str(), ","));
        i = i + 1;
    }
    out.dedent();
    emit_pack_extras(out, name.as_str(), &pk.members);
    Ok(())
}

/// Writes the definition of `id` for the `read` module (see `read_def_spec`).
pub fn emit_read_type_definition(ctx: &RustContext, out: &mut CodeWriter, id: TypeID, ty: &Type) -> (r: Result<(), String>)
    requires
        ctx.ready(),
        has_id(ctx.world_model().defs, id),
        ty@ == def_of(ctx.world_model().defs, id),
        old(out).braced(),
        old(out).depth() + 8 < usize::MAX,
    ensures
        final(out).depth() == old(out).depth(),
        final(out).same_marks(old(out)),
        match (r, read_def_spec(ctx.world_model(), old(out).text(), old(out).depth(), id)) {
            (Ok(_), Ok(t)) => final(out).text() == t,
            (Err(a), Err(b)) => a@ == b,
            _ => false,
        },
{
    match &ty.kind {
        TypeKind::Alias(_) => emit_read_alias_def(ctx, out, id, ty),
        TypeKind::Enum(_) => emit_read_enum_def(ctx, out, id, ty),
        TypeKind::Bitfld(_) => emit_read_bitfld_def(ctx, out, id, ty),
        TypeKind::Pack(_) => emit_read_pack_def(ctx, out, id, ty),
        TypeKind::Sequence(_) => emit_read_seq_def(ctx, out, id, ty),
        TypeKind::Variant(_) => emit_read_variant_def(ctx, out, id, ty),
        TypeKind::DynamicArray(_) | TypeKind::FixedArray(_) => emit_read_array_def(ctx, out, id, ty),
        TypeKind::Const(_) => emit_const_def(ctx, out, id, ty),
        TypeKind::Primitive(_) | TypeKind::Void => Ok(()),
    }
}


/// `pub name: type,` with the view type of a sequence member.
pub open spec fn view_field_line(w: crate::compile::types::WorldModel) -> spec_fn(StructMemberModel) -> Result<
    Seq<char>,
    Seq<char>,
> {
    |m: StructMemberModel|
        match super::rust::write_decl_type_spec(w, m.ty, "'a"@) {
            Ok(ty) => Ok("pub "@ + rust_ident(m.name) + ": "@ + ty + ","@),
            Err(e) => Err(e),
        }
}

/// The case of a view variant for a member: `Case(&'a Type),`, or `Case,` when the
/// payload is void.
pub open spec fn view_case_line(w: crate::compile::types::WorldModel) -> spec_fn(VariantMemberModel) -> Result<
    Seq<char>,
    Seq<char>,
> {
    |m: VariantMemberModel|
        {
            let case = case_name_spec(w, m.ty, m.value);
            if kind_of(w, resolve_alias_spec(w, m.ty)) is Void {
                Ok(case + ","@)
            } else {
                match super::rust::write_decl_type_spec(w, m.ty, "'a"@) {
                    Ok(mty) => Ok(case + "(&'a "@ + mty + "),"@),
                    Err(e) => Err(e),
                }
            }
        }
}

/// Some case of the variant carries a payload.
pub open spec fn has_payload(w: crate::compile::types::WorldModel, ms: Seq<VariantMemberModel>) -> bool {
    exists|k: int| 0 <= k < ms.len() && !(kind_of(w, resolve_alias_spec(w, (#[trigger] ms[k]).ty)) is Void)
}

/// A braced body of fallible lines at `d + 1` after the header `t1`, then `}` and a
/// blank line.
pub open spec fn body_then_close<A>(
    t1: Seq<char>,
    d: nat,
    xs: Seq<A>,
    f: spec_fn(A) -> Result<Seq<char>, Seq<char>>,
) -> Result<Seq<char>, Seq<char>> {
    match try_lines_of(t1, d + 1, xs, f, xs.len() as int) {
        Err(e) => Err(e),
        Ok(t2) => Ok(put(put(t2, d, "}"@), d, ""@)),
    }
}

/// The definition of `id` in the `write` module, written at indentation `d` after `t`.
pub open spec fn write_def_spec(w: crate::compile::types::WorldModel, t: Seq<char>, d: nat, id: TypeID) -> Result<
    Seq<char>,
    Seq<char>,
> {
    let name = rust_name(w, id);
    match kind_of(w, id) {
        KindModel::Alias { other } => match super::rust::write_decl_type_spec(w, other, "'a"@) {
            Err(e) => Err(e),
            Ok(target) => {
                let t1 = put(t, d, "#[derive(Debug, Clone, Copy, PartialEq)]"@);
                let t2 = if super::rust::needs_lifetime_spec(w, other) {
                    put(
                        put(t1, d, "#[allow(unused_lifetimes)]"@),
                        d,
                        "pub struct "@ + name + "<'a>(pub "@ + target + ");"@,
                    )
                } else {
                    put(t1, d, "pub struct "@ + name + "(pub "@ + target + ");"@)
                };
                Ok(put(t2, d, ""@))
            },
        },
        KindModel::Enum { .. } => read_def_spec(w, t, d, id),
        KindModel::Bitfld { members, .. } => body_then_close(
            put(
                put(put(t, d, "#[derive(Debug, Clone, Copy, PartialEq)]"@), d, "pub struct "@ + name),
                d,
                "{"@,
            ),
            d,
            members,
            bit_field_line(w),
        ),
        KindModel::Pack { members } => {
            let t1 = put(
                put(
                    put(put(t, d, "#[derive(Debug, Default, Clone, Copy, PartialEq)]"@), d, "#[repr(C, packed(1))]"@),
                    d,
                    "pub struct "@ + name,
                ),
                d,
                "{"@,
            );
            match try_lines_of(t1, d + 1, members, pack_field_line(w), members.len() as int) {
                Err(e) => Err(e),
                Ok(t2) => Ok(
                    put(
                        put(
                            put(put(t2, d, "}"@), d, "unsafe impl bytemuck::Zeroable for "@ + name + " { }"@),
                            d,
                            "unsafe impl bytemuck::Pod for "@ + name + " { }"@,
                        ),
                        d,
                        ""@,
                    ),
                ),
            }
        },
        KindModel::Sequence { members } => {
            let lt = if super::rust::needs_lifetime_spec(w, id) {
                "<'a>"@
            } else {
                Seq::empty()
            };
            body_then_close(
                put(
                    put(put(t, d, "#[derive(Debug, Clone, Copy, PartialEq)]"@), d, "pub struct "@ + name + lt),
                    d,
                    "{"@,
                ),
                d,
                members,
                view_field_line(w),
            )
        },
        KindModel::Variant { members, .. } => {
            let lt = if has_payload(w, members) || super::rust::needs_lifetime_spec(w, id) {
                "<'a>"@
            } else {
                Seq::empty()
            };
            body_then_close(
                put(
                    put(put(t, d, "#[derive(Debug, Clone, Copy, PartialEq)]"@), d, "pub enum "@ + name + lt),
                    d,
                    "{"@,
                ),
                d,
                members,
                view_case_line(w),
            )
        },
        KindModel::DynamicArray { value_type, .. } => match super::rust::write_decl_type_spec(
            w,
            value_type,
            "'a"@,
        ) {
            Err(e) => Err(e),
            Ok(ev) => Ok(put(put(t, d, "pub type "@ + name + "View<'a> = &'a ["@ + ev + "];"@), d, ""@)),
        },
        KindModel::FixedArray { count, value_type } => match read_decl_type_spec(w, value_type) {
            Err(e) => Err(e),
            Ok(elem) => {
                let t1 = put(t, d, "pub type "@ + name + " = ["@ + elem + "; "@ + decimal(count as nat) + "];"@);
                match super::rust::write_decl_type_spec(w, value_type, "'a"@) {
                    Err(e) => Err(e),
                    Ok(ev) => Ok(put(put(t1, d, "pub type "@ + name + "View<'a> = &'a ["@ + ev + "];"@), d, ""@)),
                }
            },
        },
        KindModel::Const { .. } => const_def_spec(w, t, d, id),
        KindModel::Primitive { .. } | KindModel::Void => Ok(t),
    }
}

fn emit_write_alias_def(ctx: &RustContext, out: &mut CodeWriter, id: TypeID, ty: &Type) -> (r: Result<(), String>)
    requires
        ctx.ready(),
        has_id(ctx.world_model().defs, id),
        ty@ == def_of(ctx.world_model().defs, id),
        old(out).braced(),
        old(out).depth() + 8 < usize::MAX,
        ty.kind is Alias,
    ensures
        final(out).depth() == old(out).depth(),
        final(out).same_marks(old(out)),
        match (r, write_def_spec(ctx.world_model(), old(out).text(), old(out).depth(), id)) {
            (Ok(_), Ok(t)) => final(out).text() == t,
            (Err(a), Err(b)) => a@ == b,
            _ => false,
        },
{
    let ghost w = ctx.world_model();
    proof {
        ctx.lemma_ready_world();
    }
    let TypeKind::Alias(alias) = &ty.kind else {
        return Ok(());
    };
    proof {
        assert(crate::compile::verify::refs(kind_of(w, id))[0] == alias.other);
        lemma_ref_defined(w, id, 0);
    }
    let name = ctx.name_of(id);
    let target_ty = ctx.rust_write_decl_type(alias.other, "'a")?;
    let needs_lt = ctx.view_needs_lifetime(alias.other);
    out.wln("#[derive(Debug, Clone, Copy, PartialEq)]");
    if needs_lt {
        out.wln("#[allow(unused_lifetimes)]");
        out.wln(&cat5("pub struct ", name.as_str(), "<'a>(pub ", target_ty.as_str(), ");"));
    } else {
        out.wln(&cat5("pub struct ", name.as_str(), "(pub ", target_ty.as_str(), ");"));
    }
    out.newline();
    Ok(())
}

fn emit_write_array_def(ctx: &RustContext, out: &mut CodeWriter, id: TypeID, ty: &Type) -> (r: Result<(), String>)
    requires
        ctx.ready(),
        has_id(ctx.world_model().defs, id),
        ty@ == def_of(ctx.world_model().defs, id),
        old(out).braced(),
        old(out).depth() + 8 < usize::MAX,
        ty.kind is DynamicArray || ty.kind is FixedArray,
    ensures
        final(out).depth() == old(out).depth(),
        final(out).same_marks(old(out)),
        match (r, write_def_spec(ctx.world_model(), old(out).text(), old(out).depth(), id)) {
            (Ok(_), Ok(t)) => final(out).text() == t,
            (Err(a), Err(b)) => a@ == b,
            _ => false,
        },
{
    let ghost w = ctx.world_model();
    proof {
        ctx.lemma_ready_world();
    }
    let name = ctx.name_of(id);
    match &ty.kind {
        TypeKind::DynamicArray(arr) => {
            proof {
                assert(crate::compile::verify::refs(kind_of(w, id))[1] == arr.value_type);
                lemma_ref_defined(w, id, 1);
            }
            let elem_view = ctx.rust_write_decl_type(arr.value_type, "'a")?;
            out.wln(&cat5("pub type ", name.as_str(), "View<'a> = &'a [", elem_view.as_str(), "];"));
            out.newline();
        },
        TypeKind::FixedArray(arr) => {
            proof {
                assert(crate::compile::verify::refs(kind_of(w, id))[0] == arr.value_type);
                lemma_ref_defined(w, id, 0);
            }
            let elem = ctx.rust_read_decl_type(arr.value_type)?;
            let count = crate::text::u64_to_string(arr.count);
            out.wln(&cat7("pub type ", name.as_str(), " = [", elem.as_str(), "; ", count.as_str(), "];"));
            let elem_view = ctx.rust_write_decl_type(arr.value_type, "'a")?;
            out.wln(&cat5("pub type ", name.as_str(), "View<'a> = &'a [", elem_view.as_str(), "];"));
            out.newline();
        },
        _ => {},
    }
    Ok(())
}


fn emit_write_bitfld_def(ctx: &RustContext, out: &mut CodeWriter, id: TypeID, ty: &Type) -> (r: Result<(), String>)
    requires
        ctx.ready(),
        has_id(ctx.world_model().defs, id),
        ty@ == def_of(ctx.world_model().defs, id),
        old(out).braced(),
        old(out).depth() + 8 < usize::MAX,
        ty.kind is Bitfld,
    ensures
        final(out).depth() == old(out).depth(),
        final(out).same_marks(old(out)),
        match (r, write_def_spec(ctx.world_model(), old(out).text(), old(out).depth(), id)) {
            (Ok(_), Ok(t)) => final(out).text() == t,
            (Err(a), Err(b)) => a@ == b,
            _ => false,
        },
{
    let ghost w = ctx.world_model();
    let ghost d = out.depth();
    proof {
        lemma_braces();
        ctx.lemma_ready_world();
    }
    let TypeKind::Bitfld(b) = &ty.kind else {
        return Ok(());
    };
    let name = ctx.name_of(id);
    out.wln("#[derive(Debug, Clone, Copy, PartialEq)]");
    out.wln(&cat2("pub struct ", name.as_str()));
    out.indent();
    let ghost t1 = out.text();
    let ghost ms = crate::compile::types::bitfld_members_model(b.members@);
    let ghost f = bit_field_line(w);
    let ghost goal = body_then_close(t1, d, ms, f);
    assert(write_def_spec(w, old(out).text(), d, id) == goal);
    let mut i: usize = 0;
    while i < b.members.len()
        invariant
            write_def_spec(w, old(out).text(), d, id) == goal,
            goal == body_then_close(t1, d, ms, f),
            kind_of(w, id) == (KindModel::Bitfld { underlying: b.underlying, members: ms }),
            ms == crate::compile::types::bitfld_members_model(b.members@),
            f == bit_field_line(w),
            ctx.ready(),
            w == ctx.world_model(),
            super::rust::world_ready(w),
            has_id(w.defs, id),
            out.depth() == d + 1,
            d == old(out).depth(),
            old(out).braced(),
            d + 8 < usize::MAX,
            out.braced(),
            i <= ms.len(),
            try_lines_of(t1, d + 1, ms, f, i as int) == Ok::<Seq<char>, Seq<char>>(out.text()),
        decreases b.members.len() - i,
    {
        let m = &b.members[i];
        proof {
            assert(ms[i as int].underlying == m.underlying);
            assert(crate::compile::verify::refs(kind_of(w, id))[i + 1] == m.underlying);
            lemma_ref_defined(w, id, i + 1);
        }
        let field_ty = match ctx.rust_type(m.underlying) {
            Ok(x) => x,
            Err(e) => {
                proof {
                    lemma_try_lines_err(t1, d + 1, ms, f, i + 1, ms.len() as int);
                }
                out.dedent();
                return Err(e);
            },
        };
        let n = sanitize(m.name.as_str());
        out.wln(&cat5("pub ", n.as_str(), ": ", field_ty.as_str(), ","));
        i = i + 1;
    }
    out.dedent();
    out.newline();
    Ok(())
}

fn emit_write_pack_def(ctx: &RustContext, out: &mut CodeWriter, id: TypeID, ty: &Type) -> (r: Result<(), String>)
    requires
        ctx.ready(),
        has_id(ctx.world_model().defs, id),
        ty@ == def_of(ctx.world_model().defs, id),
        old(out).braced(),
        old(out).depth() + 8 < usize::MAX,
        ty.kind is Pack,
    ensures
        final(out).depth() == old(out).depth(),
        final(out).same_marks(old(out)),
        match (r, write_def_spec(ctx.world_model(), old(out).text(), old(out).depth(), id)) {
            (Ok(_), Ok(t)) => final(out).text() == t,
            (Err(a), Err(b)) => a@ == b,
            _ => false,
        },
{
    let ghost w = ctx.world_model();
    let ghost d = out.depth();
    proof {
        lemma_braces();
        ctx.lemma_ready_world();
    }
    let TypeKind::Pack(pk) = &ty.kind else {
        return Ok(());
    };
    let name = ctx.name_of(id);
    out.wln("#[derive(Debug, Default, Clone, Copy, PartialEq)]");
    out.wln("#[repr(C, packed(1))]");
    out.wln(&cat2("pub struct ", name.as_str()));
    out.indent();
    let ghost t1 = out.text();
    let ghost ms = crate::compile::types::struct_members_model(pk.members@);
    let ghost f = pack_field_line(w);
    let ghost goal = match try_lines_of(t1, d + 1, ms, f, ms.len() as int) {
        Err(e) => Err(e),
        Ok(t2) => Ok(
            put(
                put(
                    put(put(t2, d, "}"@), d, "unsafe impl bytemuck::Zeroable for "@ + name@ + " { }"@),
                    d,
                    "unsafe impl bytemuck::Pod for "@ + name@ + " { }"@,
                ),
                d,
                ""@,
            ),
        ),
    };
    assert(write_def_spec(w, old(out).text(), d, id) == goal);
    let mut i: usize = 0;
    while i < pk.members.len()
        invariant
            write_def_spec(w, old(out).text(), d, id) == goal,
            goal == (match try_lines_of(t1, d + 1, ms, f, ms.len() as int) {
                Err(e) => Err(e),
                Ok(t2) => Ok(
                    put(
                        put(
                            put(put(t2, d, "}"@), d, "unsafe impl bytemuck::Zeroable for "@ + name@ + " { }"@),
                            d,
                            "unsafe impl bytemuck::Pod for "@ + name@ + " { }"@,
                        ),
                        d,
                        ""@,
                    ),
                ),
            }),
            kind_of(w, id) == (KindModel::Pack { members: ms }),
            ms == crate::compile::types::struct_members_model(pk.members@),
            f == pack_field_line(w),
            ctx.ready(),
            w == ctx.world_model(),
            super::rust::world_ready(w),
            has_id(w.defs, id),
            out.depth() == d + 1,
            d == old(out).depth(),
            old(out).braced(),
            d + 8 < usize::MAX,
            out.braced(),
            i <= ms.len(),
            try_lines_of(t1, d + 1, ms, f, i as int) == Ok::<Seq<char>, Seq<char>>(out.text()),
        decreases pk.members.len() - i,
    {
        let m = &pk.members[i];
        proof {
            assert(ms[i as int].ty == m.ty);
            assert(crate::compile::verify::refs(kind_of(w, id))[i as int] == m.ty);
            lemma_ref_defined(w, id, i as int);
        }
        let field_ty = match ctx.rust_type(m.ty) {
            Ok(x) => x,
            Err(e) => {
                proof {
                    lemma_try_lines_err(t1, d + 1, ms, f, i + 1, ms.len() as int);
                }
                out.dedent();
                return Err(e);
            },
        };
        let n = sanitize(m.name.as_str());
        out.wln(&cat5("pub ", n.as_str(), ": ", field_ty.as_str(), ","));
        i = i + 1;
    }
    out.dedent();
    out.wln(&cat3("unsafe impl bytemuck::Zeroable for ", name.as_str(), " { }"));
    out.wln(&cat3("unsafe impl bytemuck::Pod for ", name.as_str(), " { }"));
    out.newline();
    Ok(())
}

fn emit_write_seq_def(ctx: &RustContext, out: &mut CodeWriter, id: TypeID, ty: &Type) -> (r: Result<(), String>)
    requires
        ctx.ready(),
        has_id(ctx.world_model().defs, id),
        ty@ == def_of(ctx.world_model().defs, id),
        old(out).braced(),
        old(out).depth() + 8 < usize::MAX,
        ty.kind is Sequence,
    ensures
        final(out).depth() == old(out).depth(),
        final(out).same_marks(old(out)),
        match (r, write_def_spec(ctx.world_model(), old(out).text(), old(out).depth(), id)) {
            (Ok(_), Ok(t)) => final(out).text() == t,
            (Err(a), Err(b)) => a@ == b,
            _ => false,
        },
{
    let ghost w = ctx.world_model();
    let ghost d = out.depth();
    proof {
        lemma_braces();
        ctx.lemma_ready_world();
    }
    let TypeKind::Sequence(sq) = &ty.kind else {
        return Ok(());
    };
    let name = ctx.name_of(id);
    let needs_lt = ctx.view_needs_lifetime(id);
    let lt = if needs_lt {
        "<'a>"
    } else {
        ""
    };
    proof {
        reveal_strlit("");
    }
    out.wln("#[derive(Debug, Clone, Copy, PartialEq)]");
    out.wln(&cat3("pub struct ", name.as_str(), lt));
    out.indent();
    let ghost t1 = out.text();
    let ghost ms = crate::compile::types::struct_members_model(sq.members@);
    let ghost f = view_field_line(w);
    let ghost goal = body_then_close(t1, d, ms, f);
    assert(write_def_spec(w, old(out).text(), d, id) == goal);
    let mut i: usize = 0;
    while i < sq.members.len()
        invariant
            write_def_spec(w, old(out).text(), d, id) == goal,
            goal == body_then_close(t1, d, ms, f),
            kind_of(w, id) == (KindModel::Sequence { members: ms }),
            ms == crate::compile::types::struct_members_model(sq.members@),
            f == view_field_line(w),
            ctx.ready(),
            w == ctx.world_model(),
            super::rust::world_ready(w),
            has_id(w.defs, id),
            out.depth() == d + 1,
            d == old(out).depth(),
            old(out).braced(),
            d + 8 < usize::MAX,
            out.braced(),
            i <= ms.len(),
            try_lines_of(t1, d + 1, ms, f, i as int) == Ok::<Seq<char>, Seq<char>>(out.text()),
        decreases sq.members.len() - i,
    {
        let m = &sq.members[i];
        proof {
            assert(ms[i as int].ty == m.ty);
            assert(crate::compile::verify::refs(kind_of(w, id))[i as int] == m.ty);
            lemma_ref_defined(w, id, i as int);
        }
        let field_ty = match ctx.rust_write_decl_type(m.ty, "'a") {
            Ok(x) => x,
            Err(e) => {
                proof {
                    lemma_try_lines_err(t1, d + 1, ms, f, i + 1, ms.len() as int);
                }
                out.dedent();
                return Err(e);
            },
        };
        let n = sanitize(m.name.as_str());
        out.wln(&cat5("pub ", n.as_str(), ": ", field_ty.as_str(), ","));
        i = i + 1;
    }
    out.dedent();
    out.newline();
    Ok(())
}

fn emit_write_variant_def(ctx: &RustContext, out: &mut CodeWriter, id: TypeID, ty: &Type) -> (r: Result<(), String>)
    requires
        ctx.ready(),
        has_id(ctx.world_model().defs, id),
        ty@ == def_of(ctx.world_model().defs, id),
        old(out).braced(),
        old(out).depth() + 8 < usize::MAX,
        ty.kind is Variant,
    ensures
        final(out).depth() == old(out).depth(),
        final(out).same_marks(old(out)),
        match (r, write_def_spec(ctx.world_model(), old(out).text(), old(out).depth(), id)) {
            (Ok(_), Ok(t)) => final(out).text() == t,
            (Err(a), Err(b)) => a@ == b,
            _ => false,
        },
{
    let ghost w = ctx.world_model();
    let ghost d = out.depth();
    proof {
        lemma_braces();
        ctx.lemma_ready_world();
    }
    let TypeKind::Variant(v) = &ty.kind else {
        return Ok(());
    };
    let ghost ms = crate::compile::types::variant_members_model(v.members@);
    let mut has_ref_payload = false;
    let mut k: usize = 0;
    while k < v.members.len()
        invariant
            ctx.ready(),
            w == ctx.world_model(),
            super::rust::world_ready(w),
            has_id(w.defs, id),
            kind_of(w, id) == (KindModel::Variant { discriminant: v.discriminant, members: ms }),
            ms == crate::compile::types::variant_members_model(v.members@),
            k <= ms.len(),
            has_ref_payload == exists|j: int|
                0 <= j < k && !(kind_of(w, resolve_alias_spec(w, (#[trigger] ms[j]).ty)) is Void),
        decreases v.members.len() - k,
    {
        let m = &v.members[k];
        proof {
            assert(ms[k as int].ty == m.ty);
            assert(crate::compile::verify::refs(kind_of(w, id))[k + 1] == m.ty);
            lemma_ref_defined(w, id, k + 1);
            lemma_resolve_alias(w, m.ty);
        }
        let resolved = ctx.resolve_alias(m.ty);
        if !matches!(ctx.lookup(resolved).kind, TypeKind::Void) {
            has_ref_payload = true;
        }
        k = k + 1;
    }
    let needs_lt = has_ref_payload || ctx.view_needs_lifetime(id);
    let lt = if needs_lt {
        "<'a>"
    } else {
        ""
    };
    proof {
        reveal_strlit("");
    }
    let name = ctx.name_of(id);
    out.wln("#[derive(Debug, Clone, Copy, PartialEq)]");
    out.wln(&cat3("pub enum ", name.as_str(), lt));
    out.indent();
    let ghost t1 = out.text();
    let ghost f = view_case_line(w);
    let ghost goal = body_then_close(t1, d, ms, f);
    assert(write_def_spec(w, old(out).text(), d, id) == goal);
    let mut i: usize = 0;
    while i < v.members.len()
        invariant
            write_def_spec(w, old(out).text(), d, id) == goal,
            goal == body_then_close(t1, d, ms, f),
            kind_of(w, id) == (KindModel::Variant { discriminant: v.discriminant, members: ms }),
            ms == crate::compile::types::variant_members_model(v.members@),
            f == view_case_line(w),
            ctx.ready(),
            w == ctx.world_model(),
            super::rust::world_ready(w),
            has_id(w.defs, id),
            out.depth() == d + 1,
            d == old(out).depth(),
            old(out).braced(),
            d + 8 < usize::MAX,
            out.braced(),
            i <= ms.len(),
            try_lines_of(t1, d + 1, ms, f, i as int) == Ok::<Seq<char>, Seq<char>>(out.text()),
        decreases v.members.len() - i,
    {
        let m = &v.members[i];
        proof {
            assert(ms[i as int].ty == m.ty);
            assert(crate::compile::verify::refs(kind_of(w, id))[i + 1] == m.ty);
            lemma_ref_defined(w, id, i + 1);
            lemma_resolve_alias(w, m.ty);
        }
        let case_name = ctx.variant_case_name(m.ty, m.value);
        let resolved = ctx.resolve_alias(m.ty);
        let is_void = matches!(ctx.lookup(resolved).kind, TypeKind::Void);
        if is_void {
            out.wln(&cat2(case_name.as_str(), ","));
        } else {
            let mty = match ctx.rust_write_decl_type(m.ty, "'a") {
                Ok(x) => x,
                Err(e) => {
                    proof {
                        lemma_try_lines_err(t1, d + 1, ms, f, i + 1, ms.len() as int);
                    }
                    out.dedent();
                    return Err(e);
                },
            };
            out.wln(&cat4(case_name.as_str(), "(&'a ", mty.as_str(), "),"));
        }
        i = i + 1;
    }
    out.dedent();
    out.newline();
    Ok(())
}

/// Writes the definition of `id` for the `write` module (see `write_def_spec`).
pub fn emit_write_type_definition(ctx: &RustContext, out: &mut CodeWriter, id: TypeID, ty: &Type) -> (r: Result<(), String>)
    requires
        ctx.ready(),
        has_id(ctx.world_model().defs, id),
        ty@ == def_of(ctx.world_model().defs, id),
        old(out).braced(),
        old(out).depth() + 8 < usize::MAX,
    ensures
        final(out).depth() == old(out).depth(),
        final(out).same_marks(old(out)),
        match (r, write_def_spec(ctx.world_model(), old(out).text(), old(out).depth(), id)) {
            (Ok(_), Ok(t)) => final(out).text() == t,
            (Err(a), Err(b)) => a@ == b,
            _ => false,
        },
{
    match &ty.kind {
        TypeKind::Alias(_) => emit_write_alias_def(ctx, out, id, ty),
        TypeKind::Enum(_) => emit_read_enum_def(ctx, out, id, ty),
        TypeKind::Bitfld(_) => emit_write_bitfld_def(ctx, out, id, ty),
        TypeKind::Pack(_) => emit_write_pack_def(ctx, out, id, ty),
        TypeKind::Sequence(_) => emit_write_seq_def(ctx, out, id, ty),
        TypeKind::Variant(_) => emit_write_variant_def(ctx, out, id, ty),
        TypeKind::DynamicArray(_) | TypeKind::FixedArray(_) => emit_write_array_def(ctx, out, id, ty),
        TypeKind::Const(_) => emit_const_def(ctx, out, id, ty),
        TypeKind::Primitive(_) | TypeKind::Void => Ok(()),
    }
}

} // verus!
