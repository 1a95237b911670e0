//! The `write_*` functions of the Rust backend.
use vstd::prelude::*;

use super::rust::{
    bits_ok, case_name_spec, direct_primitive_spec, kind_of, lemma_resolve_alias, lifetime_suffix,
    max_len_spec, ranges_ok, resolve_alias_spec, rust_name, rust_type_spec, view_type_spec,
    world_ready, write_method_of_spec, write_value_spec, RustContext,
};
use super::rust_defs::lemma_ref_defined;
use super::rust_impls::fn_tail;
use super::{cat2, cat3, cat4, cat5, cat6, lemma_braces, lines_of, put, rust_ident, sanitize, CodeWriter};
use crate::compile::types::{
    def_of, has_id, BitfldMemberModel, KindModel, StructMemberModel, Type, TypeID, TypeKind,
    VariantMemberModel, WorldModel,
};
use crate::text::{decimal, hex_upper, ones};

verus! {

/// The lines that open a `write_*` function taking `param: &ty`.
pub open spec fn write_head(t: Seq<char>, d: nat, name: Seq<char>, param: Seq<char>, ty: Seq<char>) -> Seq<
    char,
> {
    put(
        put(
            put(t, d, "#[allow(non_snake_case)]"@),
            d,
            "pub fn write_"@ + name + "<W: Write>(writer: &mut W, "@ + param + ": &"@ + ty
                + ") -> io::Result<()>"@,
        ),
        d,
        "{"@,
    )
}

/// The statement that packs bitfield member `m` into `raw`.
pub open spec fn bit_pack_line() -> spec_fn(BitfldMemberModel) -> Seq<char> {
    |m: BitfldMemberModel|
        "raw |= ((value."@ + rust_ident(m.name) + " as u128) & 0x"@ + hex_upper(
            ones((m.range.end - m.range.start + 1) as nat),
        ) + ") << "@ + decimal(m.range.start as nat) + ";"@
}

/// The statements that write the first `k` members of a sequence.
pub open spec fn member_writes(w: WorldModel, t: Seq<char>, d: nat, ms: Seq<StructMemberModel>, k: int) -> Result<
    Seq<char>,
    Seq<char>,
>
    decreases k,
{
    if k <= 0 || k > ms.len() {
        Ok(t)
    } else {
        match member_writes(w, t, d, ms, k - 1) {
            Err(e) => Err(e),
            Ok(t1) => write_value_spec(w, t1, d, ms[k - 1].ty, "&value."@ + rust_ident(ms[k - 1].name)),
        }
    }
}

/// The arm of a variant's `write_*` match for the case `m`, whose tag is written with
/// `tag`.
pub open spec fn write_case(w: WorldModel, t: Seq<char>, d: nat, name: Seq<char>, tag: Seq<char>, m: VariantMemberModel) -> Result<
    Seq<char>,
    Seq<char>,
> {
    let case = case_name_spec(w, m.ty, m.value);
    let tag_line = tag + "(writer, "@ + decimal(m.value as nat) + ")?;"@;
    if kind_of(w, resolve_alias_spec(w, m.ty)) is Void {
        Ok(
            put(
                put(put(put(put(put(t, d, name + "::"@ + case + " =>"@), d, "{"@), d + 1, tag_line), d + 1, "Ok(())"@), d, "}"@),
                d,
                ","@,
            ),
        )
    } else {
        let t1 = put(put(put(t, d, name + "::"@ + case + "(inner) =>"@), d, "{"@), d + 1, tag_line);
        match write_value_spec(w, t1, d + 1, m.ty, "inner"@) {
            Err(e) => Err(e),
            Ok(t2) => Ok(put(put(put(t2, d + 1, "Ok(())"@), d, "}"@), d, ","@)),
        }
    }
}

/// The arms for the first `k` cases of a variant.
pub open spec fn write_cases(
    w: WorldModel,
    t: Seq<char>,
    d: nat,
    name: Seq<char>,
    tag: Seq<char>,
    ms: Seq<VariantMemberModel>,
    k: int,
) -> Result<Seq<char>, Seq<char>>
    decreases k,
{
    if k <= 0 || k > ms.len() {
        Ok(t)
    } else {
        match write_cases(w, t, d, name, tag, ms, k - 1) {
            Err(e) => Err(e),
            Ok(t1) => write_case(w, t1, d, name, tag, ms[k - 1]),
        }
    }
}

/// The statements that write every element of `values`, of type `value_type`.
pub open spec fn elem_writes(w: WorldModel, t: Seq<char>, d: nat, value_type: TypeID) -> Result<
    Seq<char>,
    Seq<char>,
> {
    if direct_primitive_spec(w, value_type) is Some {
        Ok(put(t, d, "writer.write_all(bytemuck::cast_slice(values))?;"@))
    } else {
        match write_value_spec(w, put(put(t, d, "for v in *values"@), d, "{"@), d + 1, value_type, "v"@) {
            Err(e) => Err(e),
            Ok(t1) => Ok(put(t1, d, "}"@)),
        }
    }
}

/// The count written for a dynamic array is refused above this length.
pub open spec fn shown_max_len(max_len: u128) -> nat {
    if max_len > usize::MAX {
        usize::MAX as nat
    } else {
        max_len as nat
    }
}

/// The `write_*` function of `id`, written at indentation `d` after `t`.
pub open spec fn write_impl_spec(w: WorldModel, t: Seq<char>, d: nat, id: TypeID) -> Result<
    Seq<char>,
    Seq<char>,
> {
    let name = rust_name(w, id);
    match kind_of(w, id) {
        KindModel::Primitive { .. } | KindModel::Void | KindModel::Const { .. } => Ok(t),
        KindModel::Alias { other } => {
            let target = name + lifetime_suffix(w, id, "'_"@);
            let expr = if direct_primitive_spec(w, other) is Some {
                "value.0"@
            } else {
                "&value.0"@
            };
            match write_value_spec(w, write_head(t, d, name, "value"@, target), d + 1, other, expr) {
                Err(e) => Err(e),
                Ok(t1) => Ok(fn_tail(put(t1, d + 1, "Ok(())"@), d)),
            }
        },
        KindModel::Enum { underlying, .. } => match write_method_of_spec(w, underlying) {
            Err(e) => Err(e),
            Ok(wf) => Ok(
                fn_tail(put(write_head(t, d, name, "value"@, name), d + 1, wf + "(writer, *value as _)"@), d),
            ),
        },
        KindModel::Bitfld { underlying, members } => match write_method_of_spec(w, underlying) {
            Err(e) => Err(e),
            Ok(wf) => match view_type_spec(w, id, "'_"@) {
                Err(e) => Err(e),
                Ok(vt) => {
                    let t1 = put(write_head(t, d, name, "value"@, vt), d + 1, "let mut raw: u128 = 0;"@);
                    let t2 = lines_of(t1, d + 1, members, bit_pack_line(), members.len() as int);
                    match rust_type_spec(w, underlying) {
                        Err(e) => Err(e),
                        Ok(ut) => Ok(fn_tail(put(t2, d + 1, wf + "(writer, raw as "@ + ut + ")"@), d)),
                    }
                },
            },
        },
        KindModel::Pack { .. } => match view_type_spec(w, id, "'_"@) {
            Err(e) => Err(e),
            Ok(vt) => Ok(
                fn_tail(
                    put(write_head(t, d, name, "value"@, vt), d + 1, "writer.write_all(bytemuck::bytes_of(value))"@),
                    d,
                ),
            ),
        },
        KindModel::Sequence { members } => match view_type_spec(w, id, "'_"@) {
            Err(e) => Err(e),
            Ok(vt) => match member_writes(w, write_head(t, d, name, "value"@, vt), d + 1, members, members.len() as int) {
                Err(e) => Err(e),
                Ok(t1) => Ok(fn_tail(put(t1, d + 1, "Ok(())"@), d)),
            },
        },
        KindModel::Variant { discriminant, members } => match write_method_of_spec(w, discriminant) {
            Err(e) => Err(e),
            Ok(tag) => match view_type_spec(w, id, "'_"@) {
                Err(e) => Err(e),
                Ok(vt) => {
                    let t1 = put(put(write_head(t, d, name, "value"@, vt), d + 1, "match value"@), d + 1, "{"@);
                    match write_cases(w, t1, d + 2, name, tag, members, members.len() as int) {
                        Err(e) => Err(e),
                        Ok(t2) => Ok(fn_tail(put(t2, d + 1, "}"@), d)),
                    }
                },
            },
        },
        KindModel::DynamicArray { size_type, value_type } => match view_type_spec(w, id, "'_"@) {
            Err(e) => Err(e),
            Ok(vt) => match write_method_of_spec(w, size_type) {
                Err(e) => Err(e),
                Ok(sw) => match max_len_spec(w, size_type) {
                    Err(e) => Err(e),
                    Ok(max_len) => {
                        let t1 = put(
                            put(
                                put(
                                    put(
                                        put(
                                            put(write_head(t, d, name, "values"@, vt), d + 1, "let len = values.len();"@),
                                            d + 1,
                                            "let max_len: usize = "@ + decimal(shown_max_len(max_len)) + "usize;"@,
                                        ),
                                        d + 1,
                                        "// Fail instead of truncating if the vector does not fit in the count type."@,
                                    ),
                                    d + 1,
                                    "if len > max_len { return Err(invalid_data(\"array length too large to encode\")); }"@,
                                ),
                                d + 1,
                                "let count: u64 = len.try_into().map_err(|_| invalid_data(\"array length too large to encode\"))?;"@,
                            ),
                            d + 1,
                            sw + "(writer, count as _)?;"@,
                        );
                        match elem_writes(w, t1, d + 1, value_type) {
                            Err(e) => Err(e),
                            Ok(t2) => Ok(fn_tail(put(t2, d + 1, "Ok(())"@), d)),
                        }
                    },
                },
            },
        },
        KindModel::FixedArray { count, value_type } => match view_type_spec(w, id, "'_"@) {
            Err(e) => Err(e),
            Ok(vt) => {
                let t1 = put(
                    write_head(t, d, name, "values"@, vt),
                    d + 1,
                    "if values.len() != "@ + decimal(count as nat)
                        + " { return Err(invalid_data(\"unexpected fixed array length\")); }"@,
                );
                match elem_writes(w, t1, d + 1, value_type) {
                    Err(e) => Err(e),
                    Ok(t2) => Ok(fn_tail(put(t2, d + 1, "Ok(())"@), d)),
                }
            },
        },
    }
}


pub proof fn lemma_member_range(u: TypeID, ms: Seq<BitfldMemberModel>, j: int)
    requires
        ranges_ok(KindModel::Bitfld { underlying: u, members: ms }),
        0 <= j < ms.len(),
    ensures
        ms[j].range.start <= ms[j].range.end < 64,
{
    let k = KindModel::Bitfld { underlying: u, members: ms };
    assert(ranges_ok(k));
    let ms2 = k->Bitfld_members;
    assert(ms2 == ms);
    assert(ms2[j].range.start <= ms2[j].range.end);
}

/// Opens a `write_*` function taking `param: &ty`.
fn emit_write_head(out: &mut CodeWriter, name: &str, param: &str, ty: &str)
    requires
        old(out).braced(),
        old(out).depth() + 8 < usize::MAX,
    ensures
        final(out).depth() == old(out).depth() + 1,
        final(out).same_marks(old(out)),
        final(out).text() == write_head(old(out).text(), old(out).depth(), name@, param@, ty@),
{
    proof {
        lemma_braces();
    }
    out.wln("#[allow(non_snake_case)]");
    let l = cat6("pub fn write_", name, "<W: Write>(writer: &mut W, ", param, ": &", cat2(ty, ") -> io::Result<()>").as_str());
    proof {
        assert(l@ =~= "pub fn write_"@ + name@ + "<W: Write>(writer: &mut W, "@ + param@ + ": &"@ + ty@
            + ") -> io::Result<()>"@);
    }
    out.wln(&l);
    out.indent();
}

/// Closes a function and leaves a blank line.
fn emit_tail(out: &mut CodeWriter)
    requires
        old(out).braced(),
        old(out).depth() > 0,
    ensures
        final(out).depth() == old(out).depth() - 1,
        final(out).same_marks(old(out)),
        final(out).text() == fn_tail(old(out).text(), (old(out).depth() - 1) as nat),
{
    proof {
        lemma_braces();
    }
    out.dedent();
    out.newline();
}

fn emit_write_alias_impl(ctx: &RustContext, out: &mut CodeWriter, id: TypeID, ty: &Type) -> (r: Result<(), String>)
    requires
        ctx.ready(),
        has_id(ctx.world_model().defs, id),
        ty@ == def_of(ctx.world_model().defs, id),
        old(out).braced(),
        old(out).depth() + 8 < usize::MAX,
        ty.kind is Alias,
    ensures
        final(out).depth() == old(out).depth(),
        final(out).same_marks(old(out)),
        match (r, write_impl_spec(ctx.world_model(), old(out).text(), old(out).depth(), id)) {
            (Ok(_), Ok(t)) => final(out).text() == t,
            (Err(a), Err(b)) => a@ == b,
            _ => false,
        },
{
    let ghost w = ctx.world_model();
    proof {
        lemma_braces();
        ctx.lemma_ready_world();
    }
    let TypeKind::Alias(alias) = &ty.kind else {
        return Ok(());
    };
    proof {
        assert(crate::compile::verify::refs(kind_of(w, id))[0] == alias.other);
        lemma_ref_defined(w, id, 0);
    }
    let name = ctx.name_of(id);
    let target_view = if ctx.view_needs_lifetime(id) {
        cat4(name.as_str(), "<", "'_", ">")
    } else {
        cat2(name.as_str(), "")
    };
    proof {
        reveal_strlit("");
        assert(target_view@ =~= name@ + lifetime_suffix(w, id, "'_"@));
    }
    emit_write_head(out, name.as_str(), "value", target_view.as_str());
    let expr = if ctx.direct_primitive(alias.other).is_some() {
        "value.0"
    } else {
        "&value.0"
    };
    match ctx.write_value(out, alias.other, expr) {
        Ok(()) => {},
        Err(e) => {
            out.dedent();
            return Err(e);
        },
    }
    out.wln("Ok(())");
    emit_tail(out);
    Ok(())
}

fn emit_write_enum_impl(ctx: &RustContext, out: &mut CodeWriter, id: TypeID, ty: &Type) -> (r: Result<(), String>)
    requires
        ctx.ready(),
        has_id(ctx.world_model().defs, id),
        ty@ == def_of(ctx.world_model().defs, id),
        old(out).braced(),
        old(out).depth() + 8 < usize::MAX,
        ty.kind is Enum,
    ensures
        final(out).depth() == old(out).depth(),
        final(out).same_marks(old(out)),
        match (r, write_impl_spec(ctx.world_model(), old(out).text(), old(out).depth(), id)) {
            (Ok(_), Ok(t)) => final(out).text() == t,
            (Err(a), Err(b)) => a@ == b,
            _ => false,
        },
{
    let ghost w = ctx.world_model();
    proof {
        lemma_braces();
        ctx.lemma_ready_world();
    }
    let TypeKind::Enum(enm) = &ty.kind else {
        return Ok(());
    };
    proof {
        assert(crate::compile::verify::refs(kind_of(w, id))[0] == enm.underlying);
        lemma_ref_defined(w, id, 0);
    }
    let name = ctx.name_of(id);
    let write_fn = ctx.write_primitive_method(enm.underlying)?;
    emit_write_head(out, name.as_str(), "value", name.as_str());
    out.wln(&cat2(write_fn.as_str(), "(writer, *value as _)"));
    emit_tail(out);
    Ok(())
}

fn emit_write_pack_impl(ctx: &RustContext, out: &mut CodeWriter, id: TypeID, ty: &Type) -> (r: Result<(), String>)
    requires
        ctx.ready(),
        has_id(ctx.world_model().defs, id),
        ty@ == def_of(ctx.world_model().defs, id),
        old(out).braced(),
        old(out).depth() + 8 < usize::MAX,
        ty.kind is Pack,
    ensures
        final(out).depth() == old(out).depth(),
        final(out).same_marks(old(out)),
        match (r, write_impl_spec(ctx.world_model(), old(out).text(), old(out).depth(), id)) {
            (Ok(_), Ok(t)) => final(out).text() == t,
            (Err(a), Err(b)) => a@ == b,
            _ => false,
        },
{
    proof {
        lemma_braces();
        ctx.lemma_ready_world();
    }
    let name = ctx.name_of(id);
    let view_ty = ctx.rust_view_type(id, "'_")?;
    emit_write_head(out, name.as_str(), "value", view_ty.as_str());
    out.wln("writer.write_all(bytemuck::bytes_of(value))");
    emit_tail(out);
    Ok(())
}

fn emit_write_bitfld_impl(ctx: &RustContext, out: &mut CodeWriter, id: TypeID, ty: &Type) -> (r: Result<(), String>)
    requires
        ctx.ready(),
        bits_ok(ctx.world_model()),
        has_id(ctx.world_model().defs, id),
        ty@ == def_of(ctx.world_model().defs, id),
        old(out).braced(),
        old(out).depth() + 8 < usize::MAX,
        ty.kind is Bitfld,
    ensures
        final(out).depth() == old(out).depth(),
        final(out).same_marks(old(out)),
        match (r, write_impl_spec(ctx.world_model(), old(out).text(), old(out).depth(), id)) {
            (Ok(_), Ok(t)) => final(out).text() == t,
            (Err(a), Err(b)) => a@ == b,
            _ => false,
        },
{
    let ghost w = ctx.world_model();
    let ghost d = out.depth();
    proof {
        lemma_braces();
        ctx.lemma_ready_world();
        crate::compile::types::lemma_def_index(w.defs, id);
        assert(ranges_ok(w.defs[crate::compile::types::def_index(w.defs, id)].1.kind));
    }
    let TypeKind::Bitfld(b) = &ty.kind else {
        return Ok(());
    };
    proof {
        assert(crate::compile::verify::refs(kind_of(w, id))[0] == b.underlying);
        lemma_ref_defined(w, id, 0);
    }
    let name = ctx.name_of(id);
    let write_fn = ctx.write_primitive_method(b.underlying)?;
    let view_ty = ctx.rust_view_type(id, "'_")?;
    emit_write_head(out, name.as_str(), "value", view_ty.as_str());
    out.wln("let mut raw: u128 = 0;");
    let ghost t1 = out.text();
    let ghost ms = crate::compile::types::bitfld_members_model(b.members@);
    let mut i: usize = 0;
    while i < b.members.len()
        invariant
            out.depth() == d + 1,
            out.braced(),
            ms == crate::compile::types::bitfld_members_model(b.members@),
            kind_of(w, id) == (KindModel::Bitfld { underlying: b.underlying, members: ms }),
            ranges_ok(kind_of(w, id)),
            i <= ms.len(),
            out.text() == lines_of(t1, d + 1, ms, bit_pack_line(), i as int),
        decreases b.members.len() - i,
    {
        let m = &b.members[i];
        proof {
            assert(ms[i as int] == m@);
            assert(0 <= i < ms.len());
            lemma_member_range(b.underlying, ms, i as int);
        }
        let start = crate::text::u32_to_string(m.range.start);
        let width = m.range.end - m.range.start + 1;
        let mask = crate::text::u128_to_hex(crate::text::low_mask(width));
        let fname = sanitize(m.name.as_str());
        let l = cat6("raw |= ((value.", fname.as_str(), " as u128) & 0x", mask.as_str(), ") << ", cat2(start.as_str(), ";").as_str());
        proof {
            assert(l@ =~= bit_pack_line()(ms[i as int]));
        }
        out.wln(&l);
        i = i + 1;
    }
    let uty = match ctx.rust_type(b.underlying) {
        Ok(x) => x,
        Err(e) => {
            out.dedent();
            return Err(e);
        },
    };
    out.wln(&cat4(write_fn.as_str(), "(writer, raw as ", uty.as_str(), ")"));
    emit_tail(out);
    Ok(())
}


pub proof fn lemma_member_writes_err(w: WorldModel, t: Seq<char>, d: nat, ms: Seq<StructMemberModel>, k: int, n: int)
    requires
        0 <= k <= n <= ms.len(),
        member_writes(w, t, d, ms, k) is Err,
    ensures
        member_writes(w, t, d, ms, n) == member_writes(w, t, d, ms, k),
    decreases n - k,
{
    if n > k {
        lemma_member_writes_err(w, t, d, ms, k, n - 1);
    }
}

fn emit_write_seq_impl(ctx: &RustContext, out: &mut CodeWriter, id: TypeID, ty: &Type) -> (r: Result<(), String>)
    requires
        ctx.ready(),
        has_id(ctx.world_model().defs, id),
        ty@ == def_of(ctx.world_model().defs, id),
        old(out).braced(),
        old(out).depth() + 8 < usize::MAX,
        ty.kind is Sequence,
    ensures
        final(out).depth() == old(out).depth(),
        final(out).same_marks(old(out)),
        match (r, write_impl_spec(ctx.world_model(), old(out).text(), old(out).depth(), id)) {
            (Ok(_), Ok(t)) => final(out).text() == t,
            (Err(a), Err(b)) => a@ == b,
            _ => false,
        },
{
    let ghost w = ctx.world_model();
    let ghost d = out.depth();
    proof {
        lemma_braces();
        ctx.lemma_ready_world();
    }
    let TypeKind::Sequence(sq) = &ty.kind else {
        return Ok(());
    };
    let name = ctx.name_of(id);
    let view_ty = ctx.rust_view_type(id, "'_")?;
    emit_write_head(out, name.as_str(), "value", view_ty.as_str());
    let ghost t1 = out.text();
    let ghost ms = crate::compile::types::struct_members_model(sq.members@);
    let ghost goal = match member_writes(w, t1, d + 1, ms, ms.len() as int) {
        Err(e) => Err(e),
        Ok(t2) => Ok(fn_tail(put(t2, d + 1, "Ok(())"@), d)),
    };
    assert(write_impl_spec(w, old(out).text(), d, id) == goal);
    let mut i: usize = 0;
    while i < sq.members.len()
        invariant
            write_impl_spec(w, old(out).text(), d, id) == goal,
            goal == (match member_writes(w, t1, d + 1, ms, ms.len() as int) {
                Err(e) => Err(e),
                Ok(t2) => Ok(fn_tail(put(t2, d + 1, "Ok(())"@), d)),
            }),
            ctx.ready(),
            w == ctx.world_model(),
            world_ready(w),
            has_id(w.defs, id),
            kind_of(w, id) == (KindModel::Sequence { members: ms }),
            ms == crate::compile::types::struct_members_model(sq.members@),
            out.depth() == d + 1,
            d == old(out).depth(),
            old(out).braced(),
            d + 8 < usize::MAX,
            out.braced(),
            i <= ms.len(),
            member_writes(w, t1, d + 1, ms, i as int) == Ok::<Seq<char>, Seq<char>>(out.text()),
        decreases sq.members.len() - i,
    {
        let m = &sq.members[i];
        proof {
            assert(ms[i as int].ty == m.ty);
            assert(crate::compile::verify::refs(kind_of(w, id))[i as int] == m.ty);
            lemma_ref_defined(w, id, i as int);
        }
        let n = sanitize(m.name.as_str());
        let v = cat2("&value.", n.as_str());
        match ctx.write_value(out, m.ty, v.as_str()) {
            Ok(()) => {},
            Err(e) => {
                proof {
                    lemma_member_writes_err(w, t1, d + 1, ms, i + 1, ms.len() as int);
                }
                out.dedent();
                return Err(e);
            },
        }
        i = i + 1;
    }
    out.wln("Ok(())");
    emit_tail(out);
    Ok(())
}

/// Writes the arm of a variant's `write_*` match for the case `m`.
fn emit_write_case(ctx: &RustContext, out: &mut CodeWriter, name: &str, tag: &str, m: &crate::compile::types::VariantMember) -> (r: Result<
    (),
    String,
>)
    requires
        ctx.ready(),
        has_id(ctx.world_model().defs, m.ty),
        old(out).braced(),
        old(out).depth() + 4 < usize::MAX,
    ensures
        final(out).depth() == old(out).depth(),
        final(out).same_marks(old(out)),
        match (r, write_case(ctx.world_model(), old(out).text(), old(out).depth(), name@, tag@, m@)) {
            (Ok(_), Ok(t)) => final(out).text() == t,
            (Err(a), Err(b)) => a@ == b,
            _ => false,
        },
{
    let ghost w = ctx.world_model();
    proof {
        lemma_braces();
        ctx.lemma_ready_world();
        lemma_resolve_alias(w, m.ty);
    }
    let case_name = ctx.variant_case_name(m.ty, m.value);
    let v = crate::text::u64_to_string(m.value);
    let resolved = ctx.resolve_alias(m.ty);
    if matches!(ctx.lookup(resolved).kind, TypeKind::Void) {
        out.wln(&cat4(name, "::", case_name.as_str(), " =>"));
        out.indent();
        out.wln(&cat4(tag, "(writer, ", v.as_str(), ")?;"));
        out.wln("Ok(())");
        out.dedent();
        out.wln(",");
    } else {
        out.wln(&cat4(name, "::", case_name.as_str(), "(inner) =>"));
        out.indent();
        out.wln(&cat4(tag, "(writer, ", v.as_str(), ")?;"));
        match ctx.write_value(out, m.ty, "inner") {
            Ok(()) => {},
            Err(e) => {
                out.dedent();
                return Err(e);
            },
        }
        out.wln("Ok(())");
        out.dedent();
        out.wln(",");
    }
    Ok(())
}

pub proof fn lemma_write_cases_err(
    w: WorldModel,
    t: Seq<char>,
    d: nat,
    name: Seq<char>,
    tag: Seq<char>,
    ms: Seq<VariantMemberModel>,
    k: int,
    n: int,
)
    requires
        0 <= k <= n <= ms.len(),
        write_cases(w, t, d, name, tag, ms, k) is Err,
    ensures
        write_cases(w, t, d, name, tag, ms, n) == write_cases(w, t, d, name, tag, ms, k),
    decreases n - k,
{
    if n > k {
        lemma_write_cases_err(w, t, d, name, tag, ms, k, n - 1);
    }
}

fn emit_write_variant_impl(ctx: &RustContext, out: &mut CodeWriter, id: TypeID, ty: &Type) -> (r: Result<(), String>)
    requires
        ctx.ready(),
        has_id(ctx.world_model().defs, id),
        ty@ == def_of(ctx.world_model().defs, id),
        old(out).braced(),
        old(out).depth() + 8 < usize::MAX,
        ty.kind is Variant,
    ensures
        final(out).depth() == old(out).depth(),
        final(out).same_marks(old(out)),
        match (r, write_impl_spec(ctx.world_model(), old(out).text(), old(out).depth(), id)) {
            (Ok(_), Ok(t)) => final(out).text() == t,
            (Err(a), Err(b)) => a@ == b,
            _ => false,
        },
{
    let ghost w = ctx.world_model();
    let ghost d = out.depth();
    proof {
        lemma_braces();
        ctx.lemma_ready_world();
    }
    let TypeKind::Variant(v) = &ty.kind else {
        return Ok(());
    };
    proof {
        assert(crate::compile::verify::refs(kind_of(w, id))[0] == v.discriminant);
        lemma_ref_defined(w, id, 0);
    }
    let name = ctx.name_of(id);
    let write_tag = ctx.write_primitive_method(v.discriminant)?;
    let view_ty = ctx.rust_view_type(id, "'_")?;
    emit_write_head(out, name.as_str(), "value", view_ty.as_str());
    out.wln("match value");
    out.indent();
    let ghost t1 = out.text();
    let ghost ms = crate::compile::types::variant_members_model(v.members@);
    let ghost goal = match write_cases(w, t1, d + 2, name@, write_tag@, ms, ms.len() as int) {
        Err(e) => Err(e),
        Ok(t2) => Ok(fn_tail(put(t2, d + 1, "}"@), d)),
    };
    assert(write_impl_spec(w, old(out).text(), d, id) == goal);
    let mut i: usize = 0;
    while i < v.members.len()
        invariant
            write_impl_spec(w, old(out).text(), d, id) == goal,
            goal == (match write_cases(w, t1, d + 2, name@, write_tag@, ms, ms.len() as int) {
                Err(e) => Err(e),
                Ok(t2) => Ok(fn_tail(put(t2, d + 1, "}"@), d)),
            }),
            ctx.ready(),
            w == ctx.world_model(),
            world_ready(w),
            has_id(w.defs, id),
            kind_of(w, id) == (KindModel::Variant { discriminant: v.discriminant, members: ms }),
            ms == crate::compile::types::variant_members_model(v.members@),
            out.depth() == d + 2,
            d == old(out).depth(),
            old(out).braced(),
            d + 8 < usize::MAX,
            out.braced(),
            i <= ms.len(),
            write_cases(w, t1, d + 2, name@, write_tag@, ms, i as int) == Ok::<Seq<char>, Seq<char>>(out.text()),
        decreases v.members.len() - i,
    {
        let m = &v.members[i];
        proof {
            assert(ms[i as int] == m@);
            assert(crate::compile::verify::refs(kind_of(w, id))[i + 1] == m.ty);
            lemma_ref_defined(w, id, i + 1);
        }
        match emit_write_case(ctx, out, name.as_str(), write_tag.as_str(), m) {
            Ok(()) => {},
            Err(e) => {
                proof {
                    lemma_write_cases_err(w, t1, d + 2, name@, write_tag@, ms, i + 1, ms.len() as int);
                }
                out.dedent();
                out.dedent();
                return Err(e);
            },
        }
        i = i + 1;
    }
    out.dedent();
    emit_tail(out);
    Ok(())
}


/// Writes the statements that write every element of `values`.
fn emit_elem_writes(ctx: &RustContext, out: &mut CodeWriter, value_type: TypeID) -> (r: Result<(), String>)
    requires
        ctx.ready(),
        has_id(ctx.world_model().defs, value_type),
        old(out).braced(),
        old(out).depth() + 4 < usize::MAX,
    ensures
        final(out).depth() == old(out).depth(),
        final(out).same_marks(old(out)),
        match (r, elem_writes(ctx.world_model(), old(out).text(), old(out).depth(), value_type)) {
            (Ok(_), Ok(t)) => final(out).text() == t,
            (Err(a), Err(b)) => a@ == b,
            _ => false,
        },
{
    proof {
        lemma_braces();
    }
    if ctx.direct_primitive(value_type).is_some() {
        out.wln("writer.write_all(bytemuck::cast_slice(values))?;");
    } else {
        out.wln("for v in *values");
        out.indent();
        match ctx.write_value(out, value_type, "v") {
            Ok(()) => {},
            Err(e) => {
                out.dedent();
                return Err(e);
            },
        }
        out.dedent();
    }
    Ok(())
}

fn emit_write_dyn_impl(ctx: &RustContext, out: &mut CodeWriter, id: TypeID, ty: &Type) -> (r: Result<(), String>)
    requires
        ctx.ready(),
        has_id(ctx.world_model().defs, id),
        ty@ == def_of(ctx.world_model().defs, id),
        old(out).braced(),
        old(out).depth() + 8 < usize::MAX,
        ty.kind is DynamicArray,
    ensures
        final(out).depth() == old(out).depth(),
        final(out).same_marks(old(out)),
        match (r, write_impl_spec(ctx.world_model(), old(out).text(), old(out).depth(), id)) {
            (Ok(_), Ok(t)) => final(out).text() == t,
            (Err(a), Err(b)) => a@ == b,
            _ => false,
        },
{
    let ghost w = ctx.world_model();
    proof {
        lemma_braces();
        ctx.lemma_ready_world();
    }
    let TypeKind::DynamicArray(arr) = &ty.kind else {
        return Ok(());
    };
    proof {
        assert(crate::compile::verify::refs(kind_of(w, id))[0] == arr.size_type);
        assert(crate::compile::verify::refs(kind_of(w, id))[1] == arr.value_type);
        lemma_ref_defined(w, id, 0);
        lemma_ref_defined(w, id, 1);
    }
    let name = ctx.name_of(id);
    let values_ty = ctx.rust_view_type(id, "'_")?;
    let size_write = ctx.write_primitive_method(arr.size_type)?;
    let max_len = ctx.max_len_for_size(arr.size_type)?;
    let cap: u128 = usize::MAX as u128;
    let shown = if max_len > cap {
        cap
    } else {
        max_len
    };
    proof {
        assert(shown as nat == shown_max_len(max_len));
    }
    emit_write_head(out, name.as_str(), "values", values_ty.as_str());
    out.wln("let len = values.len();");
    let ml = crate::text::u128_to_string(shown);
    out.wln(&cat3("let max_len: usize = ", ml.as_str(), "usize;"));
    out.wln("// Fail instead of truncating if the vector does not fit in the count type.");
    out.wln(
        "if len > max_len { return Err(invalid_data(\"array length too large to encode\")); }",
    );
    out.wln(
        "let count: u64 = len.try_into().map_err(|_| invalid_data(\"array length too large to encode\"))?;",
    );
    out.wln(&cat2(size_write.as_str(), "(writer, count as _)?;"));
    match emit_elem_writes(ctx, out, arr.value_type) {
        Ok(()) => {},
        Err(e) => {
            out.dedent();
            return Err(e);
        },
    }
    out.wln("Ok(())");
    emit_tail(out);
    Ok(())
}

fn emit_write_fixed_impl(ctx: &RustContext, out: &mut CodeWriter, id: TypeID, ty: &Type) -> (r: Result<(), String>)
    requires
        ctx.ready(),
        has_id(ctx.world_model().defs, id),
        ty@ == def_of(ctx.world_model().defs, id),
        old(out).braced(),
        old(out).depth() + 8 < usize::MAX,
        ty.kind is FixedArray,
    ensures
        final(out).depth() == old(out).depth(),
        final(out).same_marks(old(out)),
        match (r, write_impl_spec(ctx.world_model(), old(out).text(), old(out).depth(), id)) {
            (Ok(_), Ok(t)) => final(out).text() == t,
            (Err(a), Err(b)) => a@ == b,
            _ => false,
        },
{
    let ghost w = ctx.world_model();
    proof {
        lemma_braces();
        ctx.lemma_ready_world();
    }
    let TypeKind::FixedArray(arr) = &ty.kind else {
        return Ok(());
    };
    proof {
        assert(crate::compile::verify::refs(kind_of(w, id))[0] == arr.value_type);
        lemma_ref_defined(w, id, 0);
    }
    let name = ctx.name_of(id);
    let values_ty = ctx.rust_view_type(id, "'_")?;
    emit_write_head(out, name.as_str(), "values", values_ty.as_str());
    let c = crate::text::u64_to_string(arr.count);
    out.wln(
        &cat3(
            "if values.len() != ",
            c.as_str(),
            " { return Err(invalid_data(\"unexpected fixed array length\")); }",
        ),
    );
    match emit_elem_writes(ctx, out, arr.value_type) {
        Ok(()) => {},
        Err(e) => {
            out.dedent();
            return Err(e);
        },
    }
    out.wln("Ok(())");
    emit_tail(out);
    Ok(())
}

/// Writes the `write_*` function of the type `id`, defined as `ty`, at the writer's
/// indentation; primitives and `void` get none.
pub fn emit_write_impl(ctx: &RustContext, out: &mut CodeWriter, id: TypeID, ty: &Type) -> (r: Result<(), String>)
    requires
        ctx.ready(),
        bits_ok(ctx.world_model()),
        has_id(ctx.world_model().defs, id),
        ty@ == def_of(ctx.world_model().defs, id),
        old(out).braced(),
        old(out).depth() + 8 < usize::MAX,
    ensures
        final(out).depth() == old(out).depth(),
        final(out).same_marks(old(out)),
        match (r, write_impl_spec(ctx.world_model(), old(out).text(), old(out).depth(), id)) {
            (Ok(_), Ok(t)) => final(out).text() == t,
            (Err(a), Err(b)) => a@ == b,
            _ => false,
        },
{
    match &ty.kind {
        TypeKind::Primitive(_) | TypeKind::Void | TypeKind::Const(_) => Ok(()),
        TypeKind::Alias(_) => emit_write_alias_impl(ctx, out, id, ty),
        TypeKind::Enum(_) => emit_write_enum_impl(ctx, out, id, ty),
        TypeKind::Bitfld(_) => emit_write_bitfld_impl(ctx, out, id, ty),
        TypeKind::Pack(_) => emit_write_pack_impl(ctx, out, id, ty),
        TypeKind::Sequence(_) => emit_write_seq_impl(ctx, out, id, ty),
        TypeKind::Variant(_) => emit_write_variant_impl(ctx, out, id, ty),
        TypeKind::DynamicArray(_) => emit_write_dyn_impl(ctx, out, id, ty),
        TypeKind::FixedArray(_) => emit_write_fixed_impl(ctx, out, id, ty),
    }
}

} // verus!
