//! The `read_*` and `write_*` functions of the Rust backend.
use vstd::prelude::*;

use super::rust::{
    bits_ok, bulk_kind_spec, case_name_spec, direct_primitive_spec, kind_of, lemma_resolve_alias,
    max_len_spec, needs_lifetime_spec, ranges_ok, read_decl_type_spec, read_expr_spec,
    read_method_of_spec, resolve_alias_spec, rust_name, rust_type_spec, size_check_spec,
    view_type_spec, world_ready, write_method_of_spec, write_value_spec, RustContext,
};
use super::rust_defs::{lemma_ref_defined, lemma_try_lines_err};
use super::{
    cat2, cat3, cat4, cat5, cat6, cat7, lemma_braces, lines_of, put, rust_ident, sanitize,
    try_lines_of, CodeWriter,
};
use crate::compile::types::{
    def_of, has_id, BitfldMemberModel, KindModel, Primitive, StructMemberModel, Type, TypeID,
    TypeKind, VariantMemberModel, WorldModel,
};
use crate::intermediate::ast::EnumMemberModel;
use crate::text::{decimal, hex_upper, ones, signed_decimal};

verus! {

/// The lines that open a `read_*` function returning `io::Result<ret>`.
pub open spec fn read_head(t: Seq<char>, d: nat, name: Seq<char>, ret: Seq<char>) -> Seq<char> {
    put(
        put(
            put(t, d, "#[allow(non_snake_case)]"@),
            d,
            "pub fn read_"@ + name + "<R: Read>(reader: &mut R) -> io::Result<"@ + ret + ">"@,
        ),
        d,
        "{"@,
    )
}

/// The lines that close a function and leave a blank line.
pub open spec fn fn_tail(t: Seq<char>, d: nat) -> Seq<char> {
    put(put(t, d, "}"@), d, ""@)
}

pub open spec fn enum_arm(name: Seq<char>) -> spec_fn(EnumMemberModel) -> Seq<char> {
    |m: EnumMemberModel| signed_decimal(m.value as int) + " => Ok("@ + name + "::"@ + rust_ident(m.name) + "),"@
}

pub open spec fn bit_enum_arm(ename: Seq<char>) -> spec_fn(EnumMemberModel) -> Seq<char> {
    |m: EnumMemberModel| "    "@ + signed_decimal(m.value as int) + " => "@ + ename + "::"@ + rust_ident(m.name) + ","@
}

/// The statements that extract bitfield member `m` from `raw`.
pub open spec fn bit_assign(w: WorldModel, t: Seq<char>, d: nat, m: BitfldMemberModel) -> Result<
    Seq<char>,
    Seq<char>,
> {
    let start = decimal(m.range.start as nat);
    let mask = hex_upper(ones((m.range.end - m.range.start + 1) as nat));
    let field = rust_ident(m.name);
    match kind_of(w, m.underlying) {
        KindModel::Enum { underlying, members, default } => match rust_type_spec(w, underlying) {
            Err(e) => Err(e),
            Ok(ty) => {
                let ename = rust_name(w, m.underlying);
                let t1 = put(
                    t,
                    d,
                    "let "@ + field + "_raw = ((raw >> "@ + start + ") & 0x"@ + mask + ") as "@ + ty + ";"@,
                );
                let t2 = put(t1, d, "let "@ + field + " = match "@ + field + "_raw {"@);
                let t3 = lines_of(t2, d, members, bit_enum_arm(ename), members.len() as int);
                let t4 = match default {
                    Some(df) => put(t3, d, "    _ => "@ + ename + "::"@ + rust_ident(df.name) + ","@),
                    None => put(
                        t3,
                        d,
                        "    _ => return Err(invalid_data(\"invalid discriminant in bitfield\")),"@,
                    ),
                };
                Ok(put(t4, d, "};"@))
            },
        },
        _ => match rust_type_spec(w, m.underlying) {
            Err(e) => Err(e),
            Ok(ty) => Ok(
                put(
                    t,
                    d,
                    "let "@ + field + " = (((raw >> "@ + start + ") & 0x"@ + mask + ") as "@ + ty + ") as "@
                        + ty + ";"@,
                ),
            ),
        },
    }
}

/// `s` followed by one line and then `rest` starts with `s` and that line.
proof fn lemma_put_prefix(s: Seq<char>, d: nat, l: Seq<char>, x: Seq<char>)
    requires
        s.is_prefix_of(x),
    ensures
        s.is_prefix_of(put(x, d, l)),
{
    assert(put(x, d, l).subrange(0, s.len() as int) =~= x.subrange(0, s.len() as int));
}

/// Lines written after `s` keep `s` in front.
proof fn lemma_lines_of_prefix<A>(s: Seq<char>, t: Seq<char>, d: nat, xs: Seq<A>, f: spec_fn(A) -> Seq<char>, k: int)
    requires
        s.is_prefix_of(t),
    ensures
        s.is_prefix_of(lines_of(t, d, xs, f, k)),
    decreases k,
{
    if 0 < k <= xs.len() {
        lemma_lines_of_prefix(s, t, d, xs, f, k - 1);
        lemma_put_prefix(s, d, f(xs[k - 1]), lines_of(t, d, xs, f, k - 1));
    }
}

/// A bitfield member covering bits `start..=end` is read back with the mask of exactly
/// `end - start + 1` low one bits, shifted down by `start`, which is the mask and shift
/// the writer packs it with: a value that fits the member reads back unchanged.
pub proof fn lemma_bitfield_read_mask_matches_write(w: WorldModel, t: Seq<char>, d: nat, m: BitfldMemberModel)
    ensures
        ({
            let mask = hex_upper(
                (vstd::arithmetic::power2::pow2((m.range.end - m.range.start + 1) as nat) - 1) as nat,
            );
            let f = rust_ident(m.name);
            let sh = decimal(m.range.start as nat);
            &&& super::rust_writes::bit_pack_line()(m) == "raw |= ((value."@ + f + " as u128) & 0x"@ + mask
                + ") << "@ + sh + ";"@
            &&& (bit_assign(w, t, d, m) is Ok && kind_of(w, m.underlying) is Enum) ==> put(
                t,
                d,
                "let "@ + f + "_raw = ((raw >> "@ + sh + ") & 0x"@ + mask + ") as "@ + rust_type_spec(
                    w,
                    kind_of(w, m.underlying)->Enum_underlying,
                )->Ok_0 + ";"@,
            ).is_prefix_of(bit_assign(w, t, d, m)->Ok_0)
            &&& (bit_assign(w, t, d, m) is Ok && !(kind_of(w, m.underlying) is Enum)) ==> bit_assign(w, t, d, m)->Ok_0 == put(
                t,
                d,
                "let "@ + f + " = (((raw >> "@ + sh + ") & 0x"@ + mask + ") as "@ + rust_type_spec(
                    w,
                    m.underlying,
                )->Ok_0 + ") as "@ + rust_type_spec(w, m.underlying)->Ok_0 + ";"@,
            )
        }),
{
    let width = (m.range.end - m.range.start + 1) as nat;
    crate::text::lemma_ones_pow2(width);
    assert(ones(width) == (vstd::arithmetic::power2::pow2(width) - 1) as nat);
    if let KindModel::Enum { underlying, members, default } = kind_of(w, m.underlying) {
        if let Ok(ty) = rust_type_spec(w, underlying) {
            let f = rust_ident(m.name);
            let sh = decimal(m.range.start as nat);
            let ename = rust_name(w, m.underlying);
            let t1 = put(t, d, "let "@ + f + "_raw = ((raw >> "@ + sh + ") & 0x"@ + hex_upper(ones(width)) + ") as "@ + ty + ";"@);
            let t2 = put(t1, d, "let "@ + f + " = match "@ + f + "_raw {"@);
            assert(t1.is_prefix_of(t1)) by {
                assert(t1.subrange(0, t1.len() as int) =~= t1);
            }
            lemma_put_prefix(t1, d, "let "@ + f + " = match "@ + f + "_raw {"@, t1);
            lemma_lines_of_prefix(t1, t2, d, members, bit_enum_arm(ename), members.len() as int);
            let t3 = lines_of(t2, d, members, bit_enum_arm(ename), members.len() as int);
            let t4 = match default {
                Some(df) => put(t3, d, "    _ => "@ + ename + "::"@ + rust_ident(df.name) + ","@),
                None => put(t3, d, "    _ => return Err(invalid_data(\"invalid discriminant in bitfield\")),"@),
            };
            match default {
                Some(df) => lemma_put_prefix(t1, d, "    _ => "@ + ename + "::"@ + rust_ident(df.name) + ","@, t3),
                None => lemma_put_prefix(t1, d, "    _ => return Err(invalid_data(\"invalid discriminant in bitfield\")),"@, t3),
            }
            lemma_put_prefix(t1, d, "};"@, t4);
        }
    }
}

/// The Rust reader of an enum decodes each listed raw value to its member, and any other
/// value to the declared default when there is one; only without a default does it fail
/// on such a value.
pub proof fn lemma_rust_enum_reader(w: WorldModel, guard: Option<u64>, t: Seq<char>, d: nat, id: TypeID)
    requires
        kind_of(w, id) is Enum,
        read_impl_spec(w, guard, t, d, id) is Ok,
    ensures
        kind_of(w, id)->Enum_default is Some ==> exists|p: Seq<char>|
            read_impl_spec(w, guard, t, d, id)->Ok_0 == fn_tail(
                put(
                    #[trigger] put(
                        p,
                        d + 2,
                        "_ => Ok("@ + rust_name(w, id) + "::"@ + rust_ident(kind_of(w, id)->Enum_default->Some_0.name)
                            + "),"@,
                    ),
                    d + 1,
                    "}"@,
                ),
                d,
            ),
        kind_of(w, id)->Enum_default is None ==> exists|p: Seq<char>|
            read_impl_spec(w, guard, t, d, id)->Ok_0 == fn_tail(
                put(
                    #[trigger] put(
                        p,
                        d + 2,
                        "_ => Err(invalid_data(format!(\"invalid discriminant for "@ + rust_name(w, id)
                            + ": {raw}\"))),"@,
                    ),
                    d + 1,
                    "}"@,
                ),
                d,
            ),
        forall|k: int|
            #![trigger kind_of(w, id)->Enum_members[k]]
            0 <= k < kind_of(w, id)->Enum_members.len() ==> super::has_line(
                read_impl_spec(w, guard, t, d, id)->Ok_0,
                d + 2,
                signed_decimal(kind_of(w, id)->Enum_members[k].value as int) + " => Ok("@ + rust_name(w, id) + "::"@
                    + rust_ident(kind_of(w, id)->Enum_members[k].name) + "),"@,
            ),
{
    let underlying = kind_of(w, id)->Enum_underlying;
    let members = kind_of(w, id)->Enum_members;
    let default = kind_of(w, id)->Enum_default;
    let name = rust_name(w, id);
    let br = read_method_of_spec(w, underlying)->Ok_0;
    let t1 = read_head(t, d, name, name);
    let t2 = put(put(put(t1, d + 1, "let raw = "@ + br + "(reader)?;"@), d + 1, "match raw"@), d + 1, "{"@);
    let t3 = lines_of(t2, d + 2, members, enum_arm(name), members.len() as int);
    let dl = match default {
        Some(df) => "_ => Ok("@ + name + "::"@ + rust_ident(df.name) + "),"@,
        None => "_ => Err(invalid_data(format!(\"invalid discriminant for "@ + name + ": {raw}\"))),"@,
    };
    let t4 = put(t3, d + 2, dl);
    let x = fn_tail(put(t4, d + 1, "}"@), d);
    assert(read_impl_spec(w, guard, t, d, id)->Ok_0 == x);
    super::lemma_put_keeps(t3, d + 2, dl);
    super::lemma_put_keeps(t4, d + 1, "}"@);
    super::lemma_put_keeps(put(t4, d + 1, "}"@), d, "}"@);
    super::lemma_put_keeps(put(put(t4, d + 1, "}"@), d, "}"@), d, ""@);
    super::lemma_prefix_trans(t3, t4, put(t4, d + 1, "}"@));
    super::lemma_prefix_trans(t3, put(t4, d + 1, "}"@), put(put(t4, d + 1, "}"@), d, "}"@));
    super::lemma_prefix_trans(t3, put(put(t4, d + 1, "}"@), d, "}"@), x);
    assert forall|k: int|
        #![trigger kind_of(w, id)->Enum_members[k]]
        0 <= k < kind_of(w, id)->Enum_members.len() implies super::has_line(
            read_impl_spec(w, guard, t, d, id)->Ok_0,
            (d + 2) as nat,
            signed_decimal(kind_of(w, id)->Enum_members[k].value as int) + " => Ok("@ + rust_name(w, id) + "::"@
                + rust_ident(kind_of(w, id)->Enum_members[k].name) + "),"@,
        ) by {
        super::lemma_lines_of_line(t2, d + 2, members, enum_arm(name), k, members.len() as int);
        let p = lines_of(t2, d + 2, members, enum_arm(name), k);
        super::lemma_prefix_trans(put(p, d + 2, enum_arm(name)(members[k])), t3, x);
    }
}

/// The extraction statements of the first `k` bitfield members.
pub open spec fn bit_assigns(w: WorldModel, t: Seq<char>, d: nat, ms: Seq<BitfldMemberModel>, k: int) -> Result<
    Seq<char>,
    Seq<char>,
>
    decreases k,
{
    if k <= 0 || k > ms.len() {
        Ok(t)
    } else {
        match bit_assigns(w, t, d, ms, k - 1) {
            Err(e) => Err(e),
            Ok(t1) => bit_assign(w, t1, d, ms[k - 1]),
        }
    }
}

pub open spec fn field_name_line() -> spec_fn(BitfldMemberModel) -> Seq<char> {
    |m: BitfldMemberModel| rust_ident(m.name) + ","@
}

pub open spec fn seq_field_name_line() -> spec_fn(StructMemberModel) -> Seq<char> {
    |m: StructMemberModel| rust_ident(m.name) + ","@
}

/// `let name = read_x(reader)?;` for a sequence member.
pub open spec fn seq_read_line(w: WorldModel) -> spec_fn(StructMemberModel) -> Result<Seq<char>, Seq<char>> {
    |m: StructMemberModel|
        match read_expr_spec(w, m.ty, "reader"@) {
            Ok(expr) => Ok("let "@ + rust_ident(m.name) + " = "@ + expr + "?;"@),
            Err(e) => Err(e),
        }
}

/// The arm of a variant's `read_*` match for one case.
#[verifier::opaque]
pub open spec fn read_case(w: WorldModel, t: Seq<char>, d: nat, name: Seq<char>, m: VariantMemberModel) -> Result<
    Seq<char>,
    Seq<char>,
> {
    let case = case_name_spec(w, m.ty, m.value);
    let t1 = put(put(t, d, decimal(m.value as nat) + " => "@), d, "{"@);
    let body = if kind_of(w, resolve_alias_spec(w, m.ty)) is Void {
        Ok(put(t1, d + 1, "Ok("@ + name + "::"@ + case + ")"@))
    } else {
        match rust_type_spec(w, m.ty) {
            Err(e) => Err(e),
            Ok(_) => match read_expr_spec(w, m.ty, "reader"@) {
                Err(e) => Err(e),
                Ok(expr) => Ok(
                    put(
                        put(t1, d + 1, "let payload = "@ + expr + "?;"@),
                        d + 1,
                        "Ok("@ + name + "::"@ + case + "(payload))"@,
                    ),
                ),
            },
        }
    };
    match body {
        Err(e) => Err(e),
        Ok(t2) => Ok(put(put(t2, d, "}"@), d, ","@)),
    }
}

pub open spec fn read_cases(w: WorldModel, t: Seq<char>, d: nat, name: Seq<char>, ms: Seq<VariantMemberModel>, k: int) -> Result<
    Seq<char>,
    Seq<char>,
>
    decreases k,
{
    if k <= 0 || k > ms.len() {
        Ok(t)
    } else {
        match read_cases(w, t, d, name, ms, k - 1) {
            Err(e) => Err(e),
            Ok(t1) => read_case(w, t1, d, name, ms[k - 1]),
        }
    }
}

/// Whether a bulk element kind is the byte type.
pub open spec fn is_byte_kind(k: KindModel) -> bool {
    k matches KindModel::Primitive { primitive } && primitive.dtype
        == crate::compile::types::Datatype::Integer && primitive.sign
        == crate::compile::types::Signedness::Unsigned && primitive.width
        == crate::compile::types::BitWidth::W8
}

/// The lines that fill `out` with `count` elements of `value_type` in a dynamic array's
/// reader.
pub open spec fn dyn_fill(w: WorldModel, t: Seq<char>, d: nat, id: TypeID, value_type: TypeID) -> Result<
    Seq<char>,
    Seq<char>,
> {
    match bulk_kind_spec(w, id) {
        Some(k) => if is_byte_kind(k) {
            Ok(put(put(t, d, "let mut out = vec![Default::default(); count];"@), d, "reader.read_exact(&mut out)?;"@))
        } else {
            Ok(
                put(
                    put(t, d, "let mut out = vec![Default::default(); count];"@),
                    d,
                    "reader.read_exact(bytemuck::cast_slice_mut(&mut out))?;"@,
                ),
            )
        },
        None => match read_expr_spec(w, value_type, "reader"@) {
            Err(e) => Err(e),
            Ok(expr) => Ok(
                put(
                    put(
                        put(
                            put(put(t, d, "let mut out = Vec::with_capacity(count);"@), d, "for _ in 0..count"@),
                            d,
                            "{"@,
                        ),
                        d + 1,
                        "out.push("@ + expr + "?);"@,
                    ),
                    d,
                    "}"@,
                ),
            ),
        },
    }
}

/// The lines that fill `out` in a fixed array's reader.
pub open spec fn fixed_fill(w: WorldModel, t: Seq<char>, d: nat, id: TypeID, value_type: TypeID) -> Result<
    Seq<char>,
    Seq<char>,
> {
    match bulk_kind_spec(w, id) {
        Some(k) => if is_byte_kind(k) {
            Ok(put(t, d, "reader.read_exact(&mut out)?;"@))
        } else {
            Ok(put(t, d, "reader.read_exact(bytemuck::cast_slice_mut(&mut out))?;"@))
        },
        None => match read_expr_spec(w, value_type, "reader"@) {
            Err(e) => Err(e),
            Ok(expr) => Ok(
                put(put(put(put(t, d, "for x in &mut out"@), d, "{"@), d + 1, "*x = "@ + expr + "?;"@), d, "}"@),
            ),
        },
    }
}


/// The `read_*` function of `id`, written at indentation `d` after `t`; `guard` is the
/// optional limit on array sizes.
pub open spec fn read_impl_spec(w: WorldModel, guard: Option<u64>, t: Seq<char>, d: nat, id: TypeID) -> Result<
    Seq<char>,
    Seq<char>,
> {
    let name = rust_name(w, id);
    match kind_of(w, id) {
        KindModel::Primitive { .. } | KindModel::Void | KindModel::Const { .. } => Ok(t),
        KindModel::Alias { other } => match read_decl_type_spec(w, id) {
            Err(e) => Err(e),
            Ok(target) => match read_expr_spec(w, other, "reader"@) {
                Err(e) => Err(e),
                Ok(expr) => Ok(
                    fn_tail(
                        put(
                            put(read_head(t, d, name, target), d + 1, "let inner = "@ + expr + "?;"@),
                            d + 1,
                            "Ok("@ + name + "(inner))"@,
                        ),
                        d,
                    ),
                ),
            },
        },
        KindModel::Enum { underlying, members, default } => match read_method_of_spec(w, underlying) {
            Err(e) => Err(e),
            Ok(br) => {
                let t1 = read_head(t, d, name, name);
                let t2 = put(put(put(t1, d + 1, "let raw = "@ + br + "(reader)?;"@), d + 1, "match raw"@), d + 1, "{"@);
                let t3 = lines_of(t2, d + 2, members, enum_arm(name), members.len() as int);
                let t4 = match default {
                    Some(df) => put(t3, d + 2, "_ => Ok("@ + name + "::"@ + rust_ident(df.name) + "),"@),
                    None => put(
                        t3,
                        d + 2,
                        "_ => Err(invalid_data(format!(\"invalid discriminant for "@ + name + ": {raw}\"))),"@,
                    ),
                };
                Ok(fn_tail(put(t4, d + 1, "}"@), d))
            },
        },
        KindModel::Bitfld { underlying, members } => match read_method_of_spec(w, underlying) {
            Err(e) => Err(e),
            Ok(br) => {
                let t1 = put(read_head(t, d, name, name), d + 1, "let raw = "@ + br + "(reader)? as u128;"@);
                match bit_assigns(w, t1, d + 1, members, members.len() as int) {
                    Err(e) => Err(e),
                    Ok(t2) => {
                        let t3 = put(put(t2, d + 1, "Ok("@ + name), d + 1, "{"@);
                        let t4 = lines_of(t3, d + 2, members, field_name_line(), members.len() as int);
                        Ok(fn_tail(put(put(t4, d + 1, "}"@), d + 1, ")"@), d))
                    },
                }
            },
        },
        KindModel::Pack { .. } => Ok(
            fn_tail(
                put(
                    put(
                        put(
                            put(
                                put(read_head(t, d, name, name), d + 1, "// Safety: Bytes will be overwritten anyway"@),
                                d + 1,
                                "#[allow(invalid_value)]"@,
                            ),
                            d + 1,
                            "let mut tmp = unsafe { std::mem::MaybeUninit::uninit().assume_init() };"@,
                        ),
                        d + 1,
                        "reader.read_exact(bytemuck::bytes_of_mut(&mut tmp))?;"@,
                    ),
                    d + 1,
                    "Ok(tmp)"@,
                ),
                d,
            ),
        ),
        KindModel::Sequence { members } => match try_lines_of(
            read_head(t, d, name, name),
            d + 1,
            members,
            seq_read_line(w),
            members.len() as int,
        ) {
            Err(e) => Err(e),
            Ok(t2) => {
                let t3 = put(put(t2, d + 1, "Ok("@ + name), d + 1, "{"@);
                let t4 = lines_of(t3, d + 2, members, seq_field_name_line(), members.len() as int);
                Ok(fn_tail(put(put(t4, d + 1, "}"@), d + 1, ")"@), d))
            },
        },
        KindModel::Variant { discriminant, members } => match read_method_of_spec(w, discriminant) {
            Err(e) => Err(e),
            Ok(dr) => {
                let t1 = put(
                    put(put(read_head(t, d, name, name), d + 1, "let tag = "@ + dr + "(reader)?;"@), d + 1, "match tag"@),
                    d + 1,
                    "{"@,
                );
                match read_cases(w, t1, d + 2, name, members, members.len() as int) {
                    Err(e) => Err(e),
                    Ok(t2) => {
                        let t3 = put(
                            t2,
                            d + 2,
                            "_ => Err(invalid_data(format!(\"unknown tag for "@ + name + ": {tag}\"))),"@,
                        );
                        Ok(fn_tail(put(t3, d + 1, "}"@), d))
                    },
                }
            },
        },
        KindModel::DynamicArray { size_type, value_type } => match read_decl_type_spec(w, value_type) {
            Err(e) => Err(e),
            Ok(elem) => match read_method_of_spec(w, size_type) {
                Err(e) => Err(e),
                Ok(sr) => {
                    let t1 = read_head(t, d, name, "Vec<"@ + elem + ">"@);
                    let t2 = put(
                        put(t1, d + 1, "let count_raw = "@ + sr + "(reader)?;"@),
                        d + 1,
                        "let count: usize = count_raw.try_into().map_err(|_| invalid_data(\"array length too large\"))?;"@,
                    );
                    let t3 = size_check_spec(t2, d + 1, guard, "count"@, elem);
                    match dyn_fill(w, t3, d + 1, id, value_type) {
                        Err(e) => Err(e),
                        Ok(t4) => Ok(fn_tail(put(t4, d + 1, "Ok(out)"@), d)),
                    }
                },
            },
        },
        KindModel::FixedArray { count, value_type } => match read_decl_type_spec(w, value_type) {
            Err(e) => Err(e),
            Ok(elem) => {
                let c = decimal(count as nat);
                let t1 = read_head(t, d, name, "["@ + elem + "; "@ + c + "]"@);
                let t2 = put(t1, d + 1, "let mut out : ["@ + elem + "; "@ + c + "] = Default::default();"@);
                match fixed_fill(w, t2, d + 1, id, value_type) {
                    Err(e) => Err(e),
                    Ok(t3) => Ok(fn_tail(put(t3, d + 1, "Ok(out)"@), d)),
                }
            },
        },
    }
}


/// Opens a `read_*` function.
fn emit_read_head(out: &mut CodeWriter, name: &str, ret: &str)
    requires
        old(out).braced(),
        old(out).depth() + 8 < usize::MAX,
    ensures
        final(out).depth() == old(out).depth() + 1,
        final(out).same_marks(old(out)),
        final(out).text() == read_head(old(out).text(), old(out).depth(), name@, ret@),
{
    proof {
        lemma_braces();
    }
    out.wln("#[allow(non_snake_case)]");
    out.wln(&cat5("pub fn read_", name, "<R: Read>(reader: &mut R) -> io::Result<", ret, ">"));
    out.indent();
}

/// Closes a function and leaves a blank line.
fn emit_fn_tail(out: &mut CodeWriter)
    requires
        old(out).braced(),
        old(out).depth() > 0,
    ensures
        final(out).depth() == old(out).depth() - 1,
        final(out).same_marks(old(out)),
        final(out).text() == fn_tail(old(out).text(), (old(out).depth() - 1) as nat),
{
    proof {
        lemma_braces();
    }
    out.dedent();
    out.newline();
}

fn emit_read_alias_impl(ctx: &RustContext, out: &mut CodeWriter, id: TypeID, ty: &Type) -> (r: Result<(), String>)
    requires
        ctx.ready(),
        has_id(ctx.world_model().defs, id),
        ty@ == def_of(ctx.world_model().defs, id),
        old(out).braced(),
        old(out).depth() + 8 < usize::MAX,
        ty.kind is Alias,
    ensures
        final(out).depth() == old(out).depth(),
        final(out).same_marks(old(out)),
        match (r, read_impl_spec(ctx.world_model(), ctx.guard(), old(out).text(), old(out).depth(), id)) {
            (Ok(_), Ok(t)) => final(out).text() == t,
            (Err(a), Err(b)) => a@ == b,
            _ => false,
        },
{
    let ghost w = ctx.world_model();
    proof {
        ctx.lemma_ready_world();
    }
    let TypeKind::Alias(alias) = &ty.kind else {
        return Ok(());
    };
    proof {
        assert(crate::compile::verify::refs(kind_of(w, id))[0] == alias.other);
        lemma_ref_defined(w, id, 0);
    }
    let name = ctx.name_of(id);
    let target_ty = ctx.rust_read_decl_type(id)?;
    emit_read_head(out, name.as_str(), target_ty.as_str());
    let expr = match ctx.read_expr(alias.other, "reader") {
        Ok(x) => x,
        Err(e) => {
            out.dedent();
            return Err(e);
        },
    };
    out.wln(&cat3("let inner = ", expr.as_str(), "?;"));
    out.wln(&cat3("Ok(", name.as_str(), "(inner))"));
    emit_fn_tail(out);
    Ok(())
}

fn emit_read_enum_impl(ctx: &RustContext, out: &mut CodeWriter, id: TypeID, ty: &Type) -> (r: Result<(), String>)
    requires
        ctx.ready(),
        has_id(ctx.world_model().defs, id),
        ty@ == def_of(ctx.world_model().defs, id),
        old(out).braced(),
        old(out).depth() + 8 < usize::MAX,
        ty.kind is Enum,
    ensures
        final(out).depth() == old(out).depth(),
        final(out).same_marks(old(out)),
        match (r, read_impl_spec(ctx.world_model(), ctx.guard(), old(out).text(), old(out).depth(), id)) {
            (Ok(_), Ok(t)) => final(out).text() == t,
            (Err(a), Err(b)) => a@ == b,
            _ => false,
        },
{
    let ghost w = ctx.world_model();
    let ghost d = out.depth();
    proof {
        lemma_braces();
        ctx.lemma_ready_world();
    }
    let TypeKind::Enum(enm) = &ty.kind else {
        return Ok(());
    };
    proof {
        assert(crate::compile::verify::refs(kind_of(w, id))[0] == enm.underlying);
        lemma_ref_defined(w, id, 0);
    }
    let name = ctx.name_of(id);
    let base_read = ctx.read_primitive_method(enm.underlying)?;
    emit_read_head(out, name.as_str(), name.as_str());
    out.wln(&cat3("let raw = ", base_read.as_str(), "(reader)?;"));
    out.wln("match raw");
    out.indent();
    let ghost t2 = out.text();
    let ghost ms = crate::intermediate::ast::enum_members_model(enm.members@);
    let mut i: usize = 0;
    while i < enm.members.len()
        invariant
            out.depth() == d + 2,
            out.braced(),
            ms == crate::intermediate::ast::enum_members_model(enm.members@),
            i <= ms.len(),
            out.text() == lines_of(t2, d + 2, ms, enum_arm(name@), i as int),
        decreases enm.members.len() - i,
    {
        let m = &enm.members[i];
        let v = crate::text::i64_to_string(m.value);
        let n = sanitize(m.name.as_str());
        out.wln(&cat6(v.as_str(), " => Ok(", name.as_str(), "::", n.as_str(), "),"));
        i = i + 1;
    }
    if let Some(default) = &enm.default {
        let n = sanitize(default.name.as_str());
        out.wln(&cat5("_ => Ok(", name.as_str(), "::", n.as_str(), "),"));
    } else {
        out.wln(
            &cat3(
                "_ => Err(invalid_data(format!(\"invalid discriminant for ",
                name.as_str(),
                ": {raw}\"))),",
            ),
        );
    }
    out.dedent();
    emit_fn_tail(out);
    Ok(())
}

fn emit_read_pack_impl(ctx: &RustContext, out: &mut CodeWriter, id: TypeID, ty: &Type) -> (r: Result<(), String>)
    requires
        ctx.ready(),
        has_id(ctx.world_model().defs, id),
        ty@ == def_of(ctx.world_model().defs, id),
        old(out).braced(),
        old(out).depth() + 8 < usize::MAX,
        ty.kind is Pack,
    ensures
        final(out).depth() == old(out).depth(),
        final(out).same_marks(old(out)),
        match (r, read_impl_spec(ctx.world_model(), ctx.guard(), old(out).text(), old(out).depth(), id)) {
            (Ok(_), Ok(t)) => final(out).text() == t,
            (Err(a), Err(b)) => a@ == b,
            _ => false,
        },
{
    let name = ctx.name_of(id);
    emit_read_head(out, name.as_str(), name.as_str());
    out.wln("// Safety: Bytes will be overwritten anyway");
    out.wln("#[allow(invalid_value)]");
    out.wln("let mut tmp = unsafe { std::mem::MaybeUninit::uninit().assume_init() };");
    out.wln("reader.read_exact(bytemuck::bytes_of_mut(&mut tmp))?;");
    out.wln("Ok(tmp)");
    emit_fn_tail(out);
    Ok(())
}


/// Writes the statements that extract bitfield member `m` from `raw`.
fn emit_bit_assign(ctx: &RustContext, out: &mut CodeWriter, m: &crate::compile::types::BitfldMember) -> (r: Result<
    (),
    String,
>)
    requires
        ctx.ready(),
        has_id(ctx.world_model().defs, m.underlying),
        m.range.start <= m.range.end < 64,
        old(out).braced(),
    ensures
        final(out).depth() == old(out).depth(),
        final(out).same_marks(old(out)),
        match (r, bit_assign(ctx.world_model(), old(out).text(), old(out).depth(), m@)) {
            (Ok(_), Ok(t)) => final(out).text() == t,
            (Err(a), Err(b)) => a@ == b,
            _ => false,
        },
{
    let ghost w = ctx.world_model();
    let ghost d = out.depth();
    proof {
        ctx.lemma_ready_world();
    }
    let start = crate::text::u32_to_string(m.range.start);
    let width = m.range.end - m.range.start + 1;
    let mask = crate::text::u128_to_hex(crate::text::low_mask(width));
    let field = sanitize(m.name.as_str());
    let field_ty = ctx.lookup(m.underlying);
    match &field_ty.kind {
        TypeKind::Enum(enm) => {
            proof {
                assert(crate::compile::verify::refs(kind_of(w, m.underlying))[0] == enm.underlying);
                lemma_ref_defined(w, m.underlying, 0);
            }
            let uty = ctx.rust_type(enm.underlying)?;
            let ename = ctx.name_of(m.underlying);
            let l1 = cat5(
                cat2("let ", field.as_str()).as_str(),
                "_raw = ((raw >> ",
                start.as_str(),
                ") & 0x",
                cat4(mask.as_str(), ") as ", uty.as_str(), ";").as_str(),
            );
            out.wln(&l1);
            proof {
                assert(l1@ =~= "let "@ + field@ + "_raw = ((raw >> "@ + start@ + ") & 0x"@ + mask@ + ") as "@
                    + uty@ + ";"@);
            }
            out.wln(&cat5("let ", field.as_str(), " = match ", field.as_str(), "_raw {"));
            let ghost t2 = out.text();
            let ghost ems = crate::intermediate::ast::enum_members_model(enm.members@);
            let mut i: usize = 0;
            while i < enm.members.len()
                invariant
                    out.depth() == d,
                    out.braced(),
                    ems == crate::intermediate::ast::enum_members_model(enm.members@),
                    i <= ems.len(),
                    out.text() == lines_of(t2, d, ems, bit_enum_arm(ename@), i as int),
                decreases enm.members.len() - i,
            {
                let em = &enm.members[i];
                let v = crate::text::i64_to_string(em.value);
                let n = sanitize(em.name.as_str());
                let l = cat6("    ", v.as_str(), " => ", ename.as_str(), "::", cat2(n.as_str(), ",").as_str());
                proof {
                    assert(l@ =~= bit_enum_arm(ename@)(ems[i as int]));
                }
                out.wln(&l);
                i = i + 1;
            }
            if let Some(df) = &enm.default {
                let n = sanitize(df.name.as_str());
                out.wln(&cat5("    _ => ", ename.as_str(), "::", n.as_str(), ","));
            } else {
                out.wln("    _ => return Err(invalid_data(\"invalid discriminant in bitfield\")),");
            }
            out.wln("};");
        },
        _ => {
            let uty = ctx.rust_type(m.underlying)?;
            let l = cat5(
                cat2("let ", field.as_str()).as_str(),
                " = (((raw >> ",
                start.as_str(),
                ") & 0x",
                cat6(mask.as_str(), ") as ", uty.as_str(), ") as ", uty.as_str(), ";").as_str(),
            );
            proof {
                assert(l@ =~= "let "@ + field@ + " = (((raw >> "@ + start@ + ") & 0x"@ + mask@ + ") as "@ + uty@
                    + ") as "@ + uty@ + ";"@);
            }
            out.wln(&l);
        },
    }
    Ok(())
}

fn emit_read_bitfld_impl(ctx: &RustContext, out: &mut CodeWriter, id: TypeID, ty: &Type) -> (r: Result<(), String>)
    requires
        ctx.ready(),
        has_id(ctx.world_model().defs, id),
        ty@ == def_of(ctx.world_model().defs, id),
        old(out).braced(),
        old(out).depth() + 8 < usize::MAX,
        ty.kind is Bitfld,
        bits_ok(ctx.world_model()),
    ensures
        final(out).depth() == old(out).depth(),
        final(out).same_marks(old(out)),
        match (r, read_impl_spec(ctx.world_model(), ctx.guard(), old(out).text(), old(out).depth(), id)) {
            (Ok(_), Ok(t)) => final(out).text() == t,
            (Err(a), Err(b)) => a@ == b,
            _ => false,
        },
{
    let ghost w = ctx.world_model();
    let ghost d = out.depth();
    proof {
        lemma_braces();
        ctx.lemma_ready_world();
        crate::compile::types::lemma_def_index(w.defs, id);
        assert(ranges_ok(w.defs[crate::compile::types::def_index(w.defs, id)].1.kind));
    }
    let TypeKind::Bitfld(b) = &ty.kind else {
        return Ok(());
    };
    proof {
        assert(crate::compile::verify::refs(kind_of(w, id))[0] == b.underlying);
        lemma_ref_defined(w, id, 0);
    }
    let name = ctx.name_of(id);
    let base_read = ctx.read_primitive_method(b.underlying)?;
    emit_read_head(out, name.as_str(), name.as_str());
    out.wln(&cat3("let raw = ", base_read.as_str(), "(reader)? as u128;"));
    let ghost t1 = out.text();
    let ghost ms = crate::compile::types::bitfld_members_model(b.members@);
    let ghost goal = match bit_assigns(w, t1, d + 1, ms, ms.len() as int) {
        Err(e) => Err(e),
        Ok(t2) => {
            let t3 = put(put(t2, d + 1, "Ok("@ + name@), d + 1, "{"@);
            let t4 = lines_of(t3, d + 2, ms, field_name_line(), ms.len() as int);
            Ok(fn_tail(put(put(t4, d + 1, "}"@), d + 1, ")"@), d))
        },
    };
    assert(read_impl_spec(w, ctx.guard(), old(out).text(), d, id) == goal);
    let mut i: usize = 0;
    while i < b.members.len()
        invariant
            read_impl_spec(w, ctx.guard(), old(out).text(), d, id) == goal,
            goal == (match bit_assigns(w, t1, d + 1, ms, ms.len() as int) {
                Err(e) => Err(e),
                Ok(t2) => {
                    let t3 = put(put(t2, d + 1, "Ok("@ + name@), d + 1, "{"@);
                    let t4 = lines_of(t3, d + 2, ms, field_name_line(), ms.len() as int);
                    Ok(fn_tail(put(put(t4, d + 1, "}"@), d + 1, ")"@), d))
                },
            }),
            ctx.ready(),
            w == ctx.world_model(),
            world_ready(w),
            has_id(w.defs, id),
            kind_of(w, id) == (KindModel::Bitfld { underlying: b.underlying, members: ms }),
            ranges_ok(kind_of(w, id)),
            ms == crate::compile::types::bitfld_members_model(b.members@),
            out.depth() == d + 1,
            d == old(out).depth(),
            old(out).braced(),
            d + 8 < usize::MAX,
            out.braced(),
            i <= ms.len(),
            bit_assigns(w, t1, d + 1, ms, i as int) == Ok::<Seq<char>, Seq<char>>(out.text()),
        decreases b.members.len() - i,
    {
        let m = &b.members[i];
        proof {
            assert(ms[i as int] == m@);
            assert(crate::compile::verify::refs(kind_of(w, id))[i + 1] == m.underlying);
            lemma_ref_defined(w, id, i + 1);
        }
        match emit_bit_assign(ctx, out, m) {
            Ok(()) => {},
            Err(e) => {
                proof {
                    lemma_bit_assigns_err(w, t1, d + 1, ms, i + 1, ms.len() as int);
                }
                out.dedent();
                return Err(e);
            },
        }
        i = i + 1;
    }
    out.wln(&cat2("Ok(", name.as_str()));
    out.indent();
    let ghost t3 = out.text();
    let mut i: usize = 0;
    while i < b.members.len()
        invariant
            out.depth() == d + 2,
            out.braced(),
            ms == crate::compile::types::bitfld_members_model(b.members@),
            i <= ms.len(),
            out.text() == lines_of(t3, d + 2, ms, field_name_line(), i as int),
        decreases b.members.len() - i,
    {
        let n = sanitize(b.members[i].name.as_str());
        out.wln(&cat2(n.as_str(), ","));
        i = i + 1;
    }
    out.dedent();
    out.wln(")");
    emit_fn_tail(out);
    Ok(())
}

pub proof fn lemma_bit_assigns_err(w: WorldModel, t: Seq<char>, d: nat, ms: Seq<BitfldMemberModel>, k: int, n: int)
    requires
        0 <= k <= n <= ms.len(),
        bit_assigns(w, t, d, ms, k) is Err,
    ensures
        bit_assigns(w, t, d, ms, n) == bit_assigns(w, t, d, ms, k),
    decreases n - k,
{
    if n > k {
        lemma_bit_assigns_err(w, t, d, ms, k, n - 1);
    }
}


fn emit_read_seq_impl(ctx: &RustContext, out: &mut CodeWriter, id: TypeID, ty: &Type) -> (r: Result<(), String>)
    requires
        ctx.ready(),
        has_id(ctx.world_model().defs, id),
        ty@ == def_of(ctx.world_model().defs, id),
        old(out).braced(),
        old(out).depth() + 8 < usize::MAX,
        ty.kind is Sequence,
    ensures
        final(out).depth() == old(out).depth(),
        final(out).same_marks(old(out)),
        match (r, read_impl_spec(ctx.world_model(), ctx.guard(), old(out).text(), old(out).depth(), id)) {
            (Ok(_), Ok(t)) => final(out).text() == t,
            (Err(a), Err(b)) => a@ == b,
            _ => false,
        },
{
    let ghost w = ctx.world_model();
    let ghost d = out.depth();
    proof {
        lemma_braces();
        ctx.lemma_ready_world();
    }
    let TypeKind::Sequence(sq) = &ty.kind else {
        return Ok(());
    };
    let name = ctx.name_of(id);
    emit_read_head(out, name.as_str(), name.as_str());
    let ghost t1 = out.text();
    let ghost ms = crate::compile::types::struct_members_model(sq.members@);
    let ghost f = seq_read_line(w);
    let ghost goal = match try_lines_of(t1, d + 1, ms, f, ms.len() as int) {
        Err(e) => Err(e),
        Ok(t2) => {
            let t3 = put(put(t2, d + 1, "Ok("@ + name@), d + 1, "{"@);
            let t4 = lines_of(t3, d + 2, ms, seq_field_name_line(), ms.len() as int);
            Ok(fn_tail(put(put(t4, d + 1, "}"@), d + 1, ")"@), d))
        },
    };
    assert(read_impl_spec(w, ctx.guard(), old(out).text(), d, id) == goal);
    let mut i: usize = 0;
    while i < sq.members.len()
        invariant
            read_impl_spec(w, ctx.guard(), old(out).text(), d, id) == goal,
            goal == (match try_lines_of(t1, d + 1, ms, f, ms.len() as int) {
                Err(e) => Err(e),
                Ok(t2) => {
                    let t3 = put(put(t2, d + 1, "Ok("@ + name@), d + 1, "{"@);
                    let t4 = lines_of(t3, d + 2, ms, seq_field_name_line(), ms.len() as int);
                    Ok(fn_tail(put(put(t4, d + 1, "}"@), d + 1, ")"@), d))
                },
            }),
            ctx.ready(),
            w == ctx.world_model(),
            world_ready(w),
            has_id(w.defs, id),
            kind_of(w, id) == (KindModel::Sequence { members: ms }),
            ms == crate::compile::types::struct_members_model(sq.members@),
            f == seq_read_line(w),
            out.depth() == d + 1,
            d == old(out).depth(),
            old(out).braced(),
            d + 8 < usize::MAX,
            out.braced(),
            i <= ms.len(),
            try_lines_of(t1, d + 1, ms, f, i as int) == Ok::<Seq<char>, Seq<char>>(out.text()),
        decreases sq.members.len() - i,
    {
        let m = &sq.members[i];
        proof {
            assert(ms[i as int].ty == m.ty);
            assert(crate::compile::verify::refs(kind_of(w, id))[i as int] == m.ty);
            lemma_ref_defined(w, id, i as int);
        }
        let expr = match ctx.read_expr(m.ty, "reader") {
            Ok(x) => x,
            Err(e) => {
                proof {
                    lemma_try_lines_err(t1, d + 1, ms, f, i + 1, ms.len() as int);
                }
                out.dedent();
                return Err(e);
            },
        };
        let n = sanitize(m.name.as_str());
        out.wln(&cat5("let ", n.as_str(), " = ", expr.as_str(), "?;"));
        i = i + 1;
    }
    out.wln(&cat2("Ok(", name.as_str()));
    out.indent();
    let ghost t3 = out.text();
    let mut i: usize = 0;
    while i < sq.members.len()
        invariant
            out.depth() == d + 2,
            out.braced(),
            ms == crate::compile::types::struct_members_model(sq.members@),
            i <= ms.len(),
            out.text() == lines_of(t3, d + 2, ms, seq_field_name_line(), i as int),
        decreases sq.members.len() - i,
    {
        let n = sanitize(sq.members[i].name.as_str());
        out.wln(&cat2(n.as_str(), ","));
        i = i + 1;
    }
    out.dedent();
    out.wln(")");
    emit_fn_tail(out);
    Ok(())
}

/// Writes the arm of a variant's `read_*` match for the case `m`.
fn emit_read_case(ctx: &RustContext, out: &mut CodeWriter, name: &str, m: &crate::compile::types::VariantMember) -> (r: Result<
    (),
    String,
>)
    requires
        ctx.ready(),
        has_id(ctx.world_model().defs, m.ty),
        old(out).braced(),
        old(out).depth() + 4 < usize::MAX,
    ensures
        final(out).depth() == old(out).depth(),
        final(out).same_marks(old(out)),
        match (r, read_case(ctx.world_model(), old(out).text(), old(out).depth(), name@, m@)) {
            (Ok(_), Ok(t)) => final(out).text() == t,
            (Err(a), Err(b)) => a@ == b,
            _ => false,
        },
{
    let ghost w = ctx.world_model();
    proof {
        lemma_braces();
        ctx.lemma_ready_world();
        lemma_resolve_alias(w, m.ty);
        reveal(read_case);
    }
    let case_name = ctx.variant_case_name(m.ty, m.value);
    let v = crate::text::u64_to_string(m.value);
    out.wln(&cat2(v.as_str(), " => "));
    out.indent();
    let resolved = ctx.resolve_alias(m.ty);
    if matches!(ctx.lookup(resolved).kind, TypeKind::Void) {
        out.wln(&cat5("Ok(", name, "::", case_name.as_str(), ")"));
    } else {
        match ctx.rust_type(m.ty) {
            Ok(_) => {},
            Err(e) => {
                out.dedent();
                return Err(e);
            },
        }
        let expr = match ctx.read_expr(m.ty, "reader") {
            Ok(x) => x,
            Err(e) => {
                out.dedent();
                return Err(e);
            },
        };
        out.wln(&cat3("let payload = ", expr.as_str(), "?;"));
        out.wln(&cat5("Ok(", name, "::", case_name.as_str(), "(payload))"));
    }
    out.dedent();
    out.wln(",");
    Ok(())
}

pub proof fn lemma_read_cases_err(
    w: WorldModel,
    t: Seq<char>,
    d: nat,
    name: Seq<char>,
    ms: Seq<VariantMemberModel>,
    k: int,
    n: int,
)
    requires
        0 <= k <= n <= ms.len(),
        read_cases(w, t, d, name, ms, k) is Err,
    ensures
        read_cases(w, t, d, name, ms, n) == read_cases(w, t, d, name, ms, k),
    decreases n - k,
{
    if n > k {
        lemma_read_cases_err(w, t, d, name, ms, k, n - 1);
    }
}

fn emit_read_variant_impl(ctx: &RustContext, out: &mut CodeWriter, id: TypeID, ty: &Type) -> (r: Result<(), String>)
    requires
        ctx.ready(),
        has_id(ctx.world_model().defs, id),
        ty@ == def_of(ctx.world_model().defs, id),
        old(out).braced(),
        old(out).depth() + 8 < usize::MAX,
        ty.kind is Variant,
    ensures
        final(out).depth() == old(out).depth(),
        final(out).same_marks(old(out)),
        match (r, read_impl_spec(ctx.world_model(), ctx.guard(), old(out).text(), old(out).depth(), id)) {
            (Ok(_), Ok(t)) => final(out).text() == t,
            (Err(a), Err(b)) => a@ == b,
            _ => false,
        },
{
    let ghost w = ctx.world_model();
    let ghost d = out.depth();
    proof {
        lemma_braces();
        ctx.lemma_ready_world();
    }
    let TypeKind::Variant(v) = &ty.kind else {
        return Ok(());
    };
    proof {
        assert(crate::compile::verify::refs(kind_of(w, id))[0] == v.discriminant);
        lemma_ref_defined(w, id, 0);
    }
    let name = ctx.name_of(id);
    let disc_read = ctx.read_primitive_method(v.discriminant)?;
    emit_read_head(out, name.as_str(), name.as_str());
    out.wln(&cat3("let tag = ", disc_read.as_str(), "(reader)?;"));
    out.wln("match tag");
    out.indent();
    let ghost t1 = out.text();
    let ghost ms = crate::compile::types::variant_members_model(v.members@);
    let ghost goal = match read_cases(w, t1, d + 2, name@, ms, ms.len() as int) {
        Err(e) => Err(e),
        Ok(t2) => {
            let t3 = put(
                t2,
                d + 2,
                "_ => Err(invalid_data(format!(\"unknown tag for "@ + name@ + ": {tag}\"))),"@,
            );
            Ok(fn_tail(put(t3, d + 1, "}"@), d))
        },
    };
    assert(read_impl_spec(w, ctx.guard(), old(out).text(), d, id) == goal);
    let mut i: usize = 0;
    while i < v.members.len()
        invariant
            read_impl_spec(w, ctx.guard(), old(out).text(), d, id) == goal,
            goal == (match read_cases(w, t1, d + 2, name@, ms, ms.len() as int) {
                Err(e) => Err(e),
                Ok(t2) => {
                    let t3 = put(
                        t2,
                        d + 2,
                        "_ => Err(invalid_data(format!(\"unknown tag for "@ + name@ + ": {tag}\"))),"@,
                    );
                    Ok(fn_tail(put(t3, d + 1, "}"@), d))
                },
            }),
            ctx.ready(),
            w == ctx.world_model(),
            world_ready(w),
            has_id(w.defs, id),
            kind_of(w, id) == (KindModel::Variant { discriminant: v.discriminant, members: ms }),
            ms == crate::compile::types::variant_members_model(v.members@),
            out.depth() == d + 2,
            d == old(out).depth(),
            old(out).braced(),
            d + 8 < usize::MAX,
            out.braced(),
            i <= ms.len(),
            read_cases(w, t1, d + 2, name@, ms, i as int) == Ok::<Seq<char>, Seq<char>>(out.text()),
        decreases v.members.len() - i,
    {
        let m = &v.members[i];
        proof {
            assert(ms[i as int] == m@);
            assert(crate::compile::verify::refs(kind_of(w, id))[i + 1] == m.ty);
            lemma_ref_defined(w, id, i + 1);
        }
        match emit_read_case(ctx, out, name.as_str(), m) {
            Ok(()) => {},
            Err(e) => {
                proof {
                    lemma_read_cases_err(w, t1, d + 2, name@, ms, i + 1, ms.len() as int);
                }
                out.dedent();
                out.dedent();
                return Err(e);
            },
        }
        i = i + 1;
    }
    out.wln(&cat3("_ => Err(invalid_data(format!(\"unknown tag for ", name.as_str(), ": {tag}\"))),"));
    out.dedent();
    emit_fn_tail(out);
    Ok(())
}


fn emit_read_dyn_impl(ctx: &RustContext, out: &mut CodeWriter, id: TypeID, ty: &Type) -> (r: Result<(), String>)
    requires
        ctx.ready(),
        has_id(ctx.world_model().defs, id),
        ty@ == def_of(ctx.world_model().defs, id),
        old(out).braced(),
        old(out).depth() + 8 < usize::MAX,
        ty.kind is DynamicArray,
    ensures
        final(out).depth() == old(out).depth(),
        final(out).same_marks(old(out)),
        match (r, read_impl_spec(ctx.world_model(), ctx.guard(), old(out).text(), old(out).depth(), id)) {
            (Ok(_), Ok(t)) => final(out).text() == t,
            (Err(a), Err(b)) => a@ == b,
            _ => false,
        },
{
    let ghost w = ctx.world_model();
    let ghost d = out.depth();
    proof {
        lemma_braces();
        ctx.lemma_ready_world();
    }
    let TypeKind::DynamicArray(arr) = &ty.kind else {
        return Ok(());
    };
    proof {
        assert(crate::compile::verify::refs(kind_of(w, id))[0] == arr.size_type);
        assert(crate::compile::verify::refs(kind_of(w, id))[1] == arr.value_type);
        lemma_ref_defined(w, id, 0);
        lemma_ref_defined(w, id, 1);
    }
    let name = ctx.name_of(id);
    let elem_name = ctx.rust_read_decl_type(arr.value_type)?;
    let size_read = ctx.read_primitive_method(arr.size_type)?;
    let ret = cat3("Vec<", elem_name.as_str(), ">");
    emit_read_head(out, name.as_str(), ret.as_str());
    out.wln(&cat3("let count_raw = ", size_read.as_str(), "(reader)?;"));
    out.wln(
        "let count: usize = count_raw.try_into().map_err(|_| invalid_data(\"array length too large\"))?;",
    );
    ctx.insert_optional_size_check(out, "count", elem_name.as_str());
    match ctx.can_bulk_array(id) {
        Some(TypeKind::Primitive(x)) if x.is_u8() => {
            out.wln("let mut out = vec![Default::default(); count];");
            out.wln("reader.read_exact(&mut out)?;");
        },
        Some(_) => {
            out.wln("let mut out = vec![Default::default(); count];");
            out.wln("reader.read_exact(bytemuck::cast_slice_mut(&mut out))?;");
        },
        None => {
            out.wln("let mut out = Vec::with_capacity(count);");
            out.wln("for _ in 0..count");
            out.indent();
            let expr = match ctx.read_expr(arr.value_type, "reader") {
                Ok(x) => x,
                Err(e) => {
                    out.dedent();
                    out.dedent();
                    return Err(e);
                },
            };
            out.wln(&cat3("out.push(", expr.as_str(), "?);"));
            out.dedent();
        },
    }
    out.wln("Ok(out)");
    emit_fn_tail(out);
    Ok(())
}

fn emit_read_fixed_impl(ctx: &RustContext, out: &mut CodeWriter, id: TypeID, ty: &Type) -> (r: Result<(), String>)
    requires
        ctx.ready(),
        has_id(ctx.world_model().defs, id),
        ty@ == def_of(ctx.world_model().defs, id),
        old(out).braced(),
        old(out).depth() + 8 < usize::MAX,
        ty.kind is FixedArray,
    ensures
        final(out).depth() == old(out).depth(),
        final(out).same_marks(old(out)),
        match (r, read_impl_spec(ctx.world_model(), ctx.guard(), old(out).text(), old(out).depth(), id)) {
            (Ok(_), Ok(t)) => final(out).text() == t,
            (Err(a), Err(b)) => a@ == b,
            _ => false,
        },
{
    let ghost w = ctx.world_model();
    let ghost d = out.depth();
    proof {
        lemma_braces();
        ctx.lemma_ready_world();
    }
    let TypeKind::FixedArray(arr) = &ty.kind else {
        return Ok(());
    };
    proof {
        assert(crate::compile::verify::refs(kind_of(w, id))[0] == arr.value_type);
        lemma_ref_defined(w, id, 0);
    }
    let name = ctx.name_of(id);
    let elem_name = ctx.rust_read_decl_type(arr.value_type)?;
    let c = crate::text::u64_to_string(arr.count);
    let ret = cat5("[", elem_name.as_str(), "; ", c.as_str(), "]");
    emit_read_head(out, name.as_str(), ret.as_str());
    out.wln(&cat5("let mut out : [", elem_name.as_str(), "; ", c.as_str(), "] = Default::default();"));
    match ctx.can_bulk_array(id) {
        Some(TypeKind::Primitive(x)) if x.is_u8() => {
            out.wln("reader.read_exact(&mut out)?;");
        },
        Some(_) => {
            out.wln("reader.read_exact(bytemuck::cast_slice_mut(&mut out))?;");
        },
        None => {
            out.wln("for x in &mut out");
            out.indent();
            let expr = match ctx.read_expr(arr.value_type, "reader") {
                Ok(x) => x,
                Err(e) => {
                    out.dedent();
                    out.dedent();
                    return Err(e);
                },
            };
            out.wln(&cat3("*x = ", expr.as_str(), "?;"));
            out.dedent();
        },
    }
    out.wln("Ok(out)");
    emit_fn_tail(out);
    Ok(())
}

/// Writes the `read_*` function of the type `id`, defined as `ty`, at the writer's
/// indentation; primitives and `void` get none.
pub fn emit_read_impl(ctx: &RustContext, out: &mut CodeWriter, id: TypeID, ty: &Type) -> (r: Result<(), String>)
    requires
        ctx.ready(),
        bits_ok(ctx.world_model()),
        has_id(ctx.world_model().defs, id),
        ty@ == def_of(ctx.world_model().defs, id),
        old(out).braced(),
        old(out).depth() + 8 < usize::MAX,
    ensures
        final(out).depth() == old(out).depth(),
        final(out).same_marks(old(out)),
        match (r, read_impl_spec(ctx.world_model(), ctx.guard(), old(out).text(), old(out).depth(), id)) {
            (Ok(_), Ok(t)) => final(out).text() == t,
            (Err(a), Err(b)) => a@ == b,
            _ => false,
        },
{
    match &ty.kind {
        TypeKind::Primitive(_) | TypeKind::Void | TypeKind::Const(_) => Ok(()),
        TypeKind::Alias(_) => emit_read_alias_impl(ctx, out, id, ty),
        TypeKind::Enum(_) => emit_read_enum_impl(ctx, out, id, ty),
        TypeKind::Bitfld(_) => emit_read_bitfld_impl(ctx, out, id, ty),
        TypeKind::Pack(_) => emit_read_pack_impl(ctx, out, id, ty),
        TypeKind::Sequence(_) => emit_read_seq_impl(ctx, out, id, ty),
        TypeKind::Variant(_) => emit_read_variant_impl(ctx, out, id, ty),
        TypeKind::DynamicArray(_) => emit_read_dyn_impl(ctx, out, id, ty),
        TypeKind::FixedArray(_) => emit_read_fixed_impl(ctx, out, id, ty),
    }
}

} // verus!
