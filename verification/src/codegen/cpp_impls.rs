//! The `read` and `write` templates of the C++ backend.
use vstd::prelude::*;

use super::cpp::{
    cpp_bulk_spec, cpp_name, cpp_primitive_spec, cpp_type_spec, cpp_underlying_spec, CppContext,
    Namespace,
};
use super::rust::{bits_ok, kind_of, ranges_ok, world_ready};
use super::rust_defs::{lemma_ref_defined, lemma_try_lines_err};
use super::{cat2, cat3, cat4, cat5, cat6, cat7, lemma_braces, lines_of, put, rust_ident, sanitize, try_lines_of, CodeWriter};
use crate::compile::types::{
    def_of, has_id, BitWidth, BitfldMemberModel, Datatype, KindModel, Primitive, Signedness,
    StructMemberModel, Type, TypeID, TypeKind, VariantMemberModel, WorldModel,
};
use crate::intermediate::ast::EnumMemberModel;
use crate::text::{decimal, hex_upper, ones, signed_decimal};

verus! {

pub open spec fn read_head_cpp(name: Seq<char>) -> Seq<char> {
    "template <class Reader> inline bool read(Reader& reader, "@ + name + "& value)"@
}

pub open spec fn write_head_cpp(name: Seq<char>) -> Seq<char> {
    "template <class Writer> inline bool write(Writer& writer, "@ + name + " const& value)"@
}

/// The hexadecimal mask of a bitfield member.
pub open spec fn member_mask(m: BitfldMemberModel) -> Seq<char> {
    hex_upper(ones((m.range.end - m.range.start + 1) as nat))
}

pub open spec fn enum_case(name: Seq<char>) -> spec_fn(EnumMemberModel) -> Seq<char> {
    |m: EnumMemberModel| "case "@ + signed_decimal(m.value as int) + ": value = "@ + name + "::"@ + rust_ident(m.name)
        + "; return true;"@
}

pub open spec fn bit_read_line(w: WorldModel) -> spec_fn(BitfldMemberModel) -> Result<Seq<char>, Seq<char>> {
    |m: BitfldMemberModel| match cpp_type_spec(w, m.underlying, Namespace::Read) {
        Err(e) => Err(e),
        Ok(mt) => Ok(
            "value."@ + rust_ident(m.name) + " = static_cast<"@ + mt + ">((bits >> "@ + decimal(
                m.range.start as nat,
            ) + ") & 0x"@ + member_mask(m) + "ull);"@,
        ),
    }
}

pub open spec fn bit_write_line() -> spec_fn(BitfldMemberModel) -> Seq<char> {
    |m: BitfldMemberModel| "raw |= (static_cast<uint64_t>(value."@ + rust_ident(m.name) + ") & 0x"@ + member_mask(m)
        + "ull) << "@ + decimal(m.range.start as nat) + ";"@
}

/// In C++ too, a bitfield member covering bits `start..=end` is read and written with the
/// mask of exactly `end - start + 1` low one bits and the shift `start`.
pub proof fn lemma_cpp_bitfield_masks(w: WorldModel, m: BitfldMemberModel)
    ensures
        ({
            let mask = hex_upper(
                (vstd::arithmetic::power2::pow2((m.range.end - m.range.start + 1) as nat) - 1) as nat,
            );
            let f = rust_ident(m.name);
            let sh = decimal(m.range.start as nat);
            &&& bit_write_line()(m) == "raw |= (static_cast<uint64_t>(value."@ + f + ") & 0x"@ + mask
                + "ull) << "@ + sh + ";"@
            &&& cpp_type_spec(w, m.underlying, Namespace::Read) matches Ok(mt) ==> bit_read_line(w)(m) == Ok::<
                Seq<char>,
                Seq<char>,
            >("value."@ + f + " = static_cast<"@ + mt + ">((bits >> "@ + sh + ") & 0x"@ + mask + "ull);"@)
        }),
{
    crate::text::lemma_ones_pow2((m.range.end - m.range.start + 1) as nat);
}

/// The C++ reader of an enum ends its switch with the default case: an enum that declares
/// a default decodes every raw value not listed among its members to that default and
/// succeeds; only an enum without a default fails on such a value.
pub proof fn lemma_cpp_enum_reader_default(w: WorldModel, guard: Option<u64>, t: Seq<char>, d: nat, id: TypeID)
    requires
        kind_of(w, id) is Enum,
        read_impl_cpp(w, guard, t, d, id) is Ok,
    ensures
        kind_of(w, id)->Enum_default is Some ==> exists|p: Seq<char>|
            read_impl_cpp(w, guard, t, d, id)->Ok_0 == put(
                put(
                    #[trigger] put(
                        p,
                        d + 2,
                        "default: value = "@ + cpp_name(w, id, Namespace::Read) + "::"@ + rust_ident(
                            kind_of(w, id)->Enum_default->Some_0.name,
                        ) + "; return true;"@,
                    ),
                    d + 1,
                    "}"@,
                ),
                d,
                "}"@,
            ),
        kind_of(w, id)->Enum_default is None ==> exists|p: Seq<char>|
            read_impl_cpp(w, guard, t, d, id)->Ok_0 == put(
                put(#[trigger] put(p, d + 2, "default: return false;"@), d + 1, "}"@),
                d,
                "}"@,
            ),
        forall|k: int|
            #![trigger kind_of(w, id)->Enum_members[k]]
            0 <= k < kind_of(w, id)->Enum_members.len() ==> super::has_line(
                read_impl_cpp(w, guard, t, d, id)->Ok_0,
                d + 2,
                "case "@ + signed_decimal(kind_of(w, id)->Enum_members[k].value as int) + ": value = "@
                    + cpp_name(w, id, Namespace::Read) + "::"@ + rust_ident(kind_of(w, id)->Enum_members[k].name)
                    + "; return true;"@,
            ),
{
    let underlying = kind_of(w, id)->Enum_underlying;
    let members = kind_of(w, id)->Enum_members;
    let default = kind_of(w, id)->Enum_default;
    let name = cpp_name(w, id, Namespace::Read);
    let h = put(put(t, d, read_head_cpp(name)), d, "{"@);
    let base = cpp_type_spec(w, underlying, Namespace::Read)->Ok_0;
    let t2 = put(
        put(
            put(put(h, d + 1, base + " raw{};"@), d + 1, "if (!read_scalar(reader, raw)) return false;"@),
            d + 1,
            "switch (raw)"@,
        ),
        d + 1,
        "{"@,
    );
    let t3 = lines_of(t2, d + 2, members, enum_case(name), members.len() as int);
    let dl = match default {
        Some(df) => "default: value = "@ + name + "::"@ + rust_ident(df.name) + "; return true;"@,
        None => "default: return false;"@,
    };
    let t4 = put(t3, d + 2, dl);
    let x = put(put(t4, d + 1, "}"@), d, "}"@);
    super::lemma_put_keeps(t3, d + 2, dl);
    super::lemma_put_keeps(t4, d + 1, "}"@);
    super::lemma_put_keeps(put(t4, d + 1, "}"@), d, "}"@);
    super::lemma_prefix_trans(t3, t4, put(t4, d + 1, "}"@));
    super::lemma_prefix_trans(t3, put(t4, d + 1, "}"@), x);
    assert(read_impl_cpp(w, guard, t, d, id)->Ok_0 == put(
        put(
            put(
                t3,
                d + 2,
                match default {
                    Some(df) => "default: value = "@ + name + "::"@ + rust_ident(df.name) + "; return true;"@,
                    None => "default: return false;"@,
                },
            ),
            d + 1,
            "}"@,
        ),
        d,
        "}"@,
    ));
    assert(x == read_impl_cpp(w, guard, t, d, id)->Ok_0);
    assert forall|k: int|
        #![trigger kind_of(w, id)->Enum_members[k]]
        0 <= k < kind_of(w, id)->Enum_members.len() implies super::has_line(
            read_impl_cpp(w, guard, t, d, id)->Ok_0,
            (d + 2) as nat,
            "case "@ + signed_decimal(kind_of(w, id)->Enum_members[k].value as int) + ": value = "@
                + cpp_name(w, id, Namespace::Read) + "::"@ + rust_ident(kind_of(w, id)->Enum_members[k].name)
                + "; return true;"@,
        ) by {
        super::lemma_lines_of_line(t2, d + 2, members, enum_case(name), k, members.len() as int);
        let p = lines_of(t2, d + 2, members, enum_case(name), k);
        super::lemma_prefix_trans(put(p, d + 2, enum_case(name)(members[k])), t3, x);
        assert(enum_case(name)(members[k]) == "case "@ + signed_decimal(members[k].value as int) + ": value = "@
            + name + "::"@ + rust_ident(members[k].name) + "; return true;"@);
    }
}

pub open spec fn seq_read_line() -> spec_fn(StructMemberModel) -> Seq<char> {
    |m: StructMemberModel| "if (!read_value(reader, value."@ + rust_ident(m.name) + ")) return false;"@
}

pub open spec fn seq_write_line() -> spec_fn(StructMemberModel) -> Seq<char> {
    |m: StructMemberModel| "if (!write_value(writer, value."@ + rust_ident(m.name) + ")) return false;"@
}

/// The position, among the first `k` cases, of the last case with tag `v`.
pub open spec fn last_with_value(ms: Seq<VariantMemberModel>, v: u64, k: int) -> int
    decreases k,
{
    if k <= 0 || k > ms.len() {
        0
    } else if ms[k - 1].value == v {
        k - 1
    } else {
        last_with_value(ms, v, k - 1)
    }
}

/// The `case` of a variant's reader for member `m`, whose alternative is `idx`.
pub open spec fn read_case_cpp(w: WorldModel, t: Seq<char>, d: nat, m: VariantMemberModel, idx: int) -> Result<
    Seq<char>,
    Seq<char>,
> {
    match cpp_type_spec(w, m.ty, Namespace::Read) {
        Err(e) => Err(e),
        Ok(target) => {
            let t1 = put(put(t, d, "case "@ + decimal(m.value as nat) + ":"@), d, "{"@);
            let t2 = if kind_of(w, m.ty) is Void {
                put(put(t1, d + 1, "value = std::monostate{};"@), d + 1, "return true;"@)
            } else {
                put(
                    put(
                        put(
                            put(t1, d + 1, target + " payload{};"@),
                            d + 1,
                            "if (!read_value(reader, payload)) return false;"@,
                        ),
                        d + 1,
                        "value.emplace<"@ + decimal(idx as nat) + ">(payload);"@,
                    ),
                    d + 1,
                    "return true;"@,
                )
            };
            Ok(put(t2, d, "}"@))
        },
    }
}

pub open spec fn read_cases_cpp(w: WorldModel, t: Seq<char>, d: nat, ms: Seq<VariantMemberModel>, k: int) -> Result<
    Seq<char>,
    Seq<char>,
>
    decreases k,
{
    if k <= 0 || k > ms.len() {
        Ok(t)
    } else {
        match read_cases_cpp(w, t, d, ms, k - 1) {
            Err(e) => Err(e),
            Ok(t1) => read_case_cpp(w, t1, d, ms[k - 1], last_with_value(ms, ms[k - 1].value, ms.len() as int)),
        }
    }
}

/// The `case` of a variant's writer for alternative `k`, member `m`.
pub open spec fn write_case_cpp(w: WorldModel, t: Seq<char>, d: nat, disc: Seq<char>, m: VariantMemberModel, k: int) -> Seq<char> {
    let idx = decimal(k as nat);
    let tag = "auto tag = static_cast<"@ + disc + ">("@ + decimal(m.value as nat) + ");"@;
    let t1 = put(put(t, d, "case "@ + idx + ": "@), d, "{"@);
    let t2 = if kind_of(w, m.ty) is Void {
        put(put(put(t1, d + 1, tag), d + 1, "if (!write_scalar(writer, tag)) return false;"@), d + 1, "return true;"@)
    } else {
        put(
            put(
                put(
                    put(
                        put(t1, d + 1, "auto payload = std::get<"@ + idx + ">(value);"@),
                        d + 1,
                        "if (payload == nullptr) return false;"@,
                    ),
                    d + 1,
                    tag,
                ),
                d + 1,
                "if (!write_scalar(writer, tag)) return false;"@,
            ),
            d + 1,
            "return write_value(writer, *payload);"@,
        )
    };
    put(t2, d, "}"@)
}

pub open spec fn write_cases_cpp(w: WorldModel, t: Seq<char>, d: nat, disc: Seq<char>, ms: Seq<VariantMemberModel>, k: int) -> Seq<
    char,
>
    decreases k,
{
    if k <= 0 || k > ms.len() {
        t
    } else {
        write_case_cpp(w, write_cases_cpp(w, t, d, disc, ms, k - 1), d, disc, ms[k - 1], k - 1)
    }
}

/// The largest count of the unsigned size type `p`, as a C++ expression.
pub open spec fn max_expr(p: Primitive) -> Seq<char> {
    if p.dtype == Datatype::Integer && p.sign == Signedness::Unsigned {
        match p.width {
            BitWidth::W8 => "std::numeric_limits<uint8_t>::max()"@,
            BitWidth::W16 => "std::numeric_limits<uint16_t>::max()"@,
            BitWidth::W32 => "std::numeric_limits<uint32_t>::max()"@,
            BitWidth::W64 => "std::numeric_limits<uint64_t>::max()"@,
        }
    } else {
        "std::numeric_limits<uint64_t>::max()"@
    }
}

/// A function of one statement: the head, then the statement in braces.
pub open spec fn one_liner(t: Seq<char>, d: nat, head: Seq<char>, body: Seq<char>) -> Seq<char> {
    put(put(put(put(t, d, head), d, "{"@), d + 1, body), d, "}"@)
}

/// The text after the optional guard on the byte size of an array being read, whose
/// elements have the C++ type `vty`.
pub open spec fn cpp_size_check_spec(t: Seq<char>, d: nat, guard: Option<u64>, vty: Seq<char>) -> Seq<char> {
    match guard {
        None => t,
        Some(limit) => put(
            put(
                put(t, d, "const uint64_t byte_limit = "@ + decimal(limit as nat) + "ULL;"@),
                d,
                "const uint64_t elem_size = sizeof("@ + vty + ");"@,
            ),
            d,
            "if (count > byte_limit / elem_size) return false;"@,
        ),
    }
}

/// Writes the optional guard on the byte size of an array being read; the division keeps
/// the check itself from overflowing.
fn insert_cpp_size_check(ctx: &CppContext, out: &mut CodeWriter, vty: &str)
    ensures
        final(out).depth() == old(out).depth(),
        final(out).same_marks(old(out)),
        final(out).text() == cpp_size_check_spec(old(out).text(), old(out).depth(), ctx.guard(), vty@),
{
    let limit = match ctx.guard_array_size() {
        Some(b) => b,
        None => {
            return;
        },
    };
    let digits = crate::text::u64_to_string(limit);
    out.wln(&cat3("const uint64_t byte_limit = ", digits.as_str(), "ULL;"));
    out.wln(&cat3("const uint64_t elem_size = sizeof(", vty, ");"));
    out.wln("if (count > byte_limit / elem_size) return false;");
}

/// The `read` template of `id`, written at indentation `d` after `t`; `guard` is the
/// limit, in bytes, on an array being read.
pub open spec fn read_impl_cpp(w: WorldModel, guard: Option<u64>, t: Seq<char>, d: nat, id: TypeID) -> Result<Seq<char>, Seq<char>> {
    let name = cpp_name(w, id, Namespace::Read);
    let h = put(put(t, d, read_head_cpp(name)), d, "{"@);
    match kind_of(w, id) {
        KindModel::Pack { .. } => Ok(one_liner(t, d, read_head_cpp(name), "return read_scalar(reader, value);"@)),
        KindModel::Enum { underlying, members, default } => match cpp_type_spec(w, underlying, Namespace::Read) {
            Err(e) => Err(e),
            Ok(base) => {
                let t2 = put(
                    put(
                        put(put(h, d + 1, base + " raw{};"@), d + 1, "if (!read_scalar(reader, raw)) return false;"@),
                        d + 1,
                        "switch (raw)"@,
                    ),
                    d + 1,
                    "{"@,
                );
                let t3 = lines_of(t2, d + 2, members, enum_case(name), members.len() as int);
                let t4 = put(
                    t3,
                    d + 2,
                    match default {
                        Some(df) => "default: value = "@ + name + "::"@ + rust_ident(df.name) + "; return true;"@,
                        None => "default: return false;"@,
                    },
                );
                Ok(put(put(t4, d + 1, "}"@), d, "}"@))
            },
        },
        KindModel::Bitfld { underlying, members } => match cpp_underlying_spec(w, underlying) {
            Err(e) => Err(e),
            Ok(p) => match cpp_primitive_spec(p) {
                Err(e) => Err(e),
                Ok(base) => {
                    let t1 = put(
                        put(put(h, d + 1, base + " raw{};"@), d + 1, "if (!read_scalar(reader, raw)) return false;"@),
                        d + 1,
                        "auto bits = static_cast<uint64_t>(raw);"@,
                    );
                    match try_lines_of(t1, d + 1, members, bit_read_line(w), members.len() as int) {
                        Err(e) => Err(e),
                        Ok(t2) => Ok(put(put(t2, d + 1, "return true;"@), d, "}"@)),
                    }
                },
            },
        },
        KindModel::Variant { discriminant, members } => match cpp_type_spec(w, discriminant, Namespace::Read) {
            Err(e) => Err(e),
            Ok(disc) => {
                let t1 = put(
                    put(
                        put(put(h, d + 1, disc + " tag{};"@), d + 1, "if (!read_scalar(reader, tag)) return false;"@),
                        d + 1,
                        "switch (tag)"@,
                    ),
                    d + 1,
                    "{"@,
                );
                match read_cases_cpp(w, t1, d + 2, members, members.len() as int) {
                    Err(e) => Err(e),
                    Ok(t2) => Ok(put(put(put(t2, d + 2, "default: return false;"@), d + 1, "}"@), d, "}"@)),
                }
            },
        },
        KindModel::Sequence { members } => Ok(
            put(
                put(lines_of(h, d + 1, members, seq_read_line(), members.len() as int), d + 1, "return true;"@),
                d,
                "}"@,
            ),
        ),
        KindModel::DynamicArray { size_type, value_type } => match cpp_type_spec(w, size_type, Namespace::Read) {
            Err(e) => Err(e),
            Ok(size) => match cpp_type_spec(w, value_type, Namespace::Read) {
                Err(e) => Err(e),
                Ok(value) => {
                    let t1 = cpp_size_check_spec(
                        put(
                            put(
                                put(put(h, d + 1, size + " count_raw{};"@), d + 1, "if (!read_scalar(reader, count_raw)) return false;"@),
                                d + 1,
                                "auto count = static_cast<uint64_t>(count_raw);"@,
                            ),
                            d + 1,
                            "if (count > static_cast<uint64_t>(std::numeric_limits<size_t>::max())) return false;"@,
                        ),
                        d + 1,
                        guard,
                        value,
                    );
                    let t2 = if cpp_bulk_spec(w, id) {
                        put(
                            put(
                                put(
                                    put(
                                        t1,
                                        d + 1,
                                        "auto byte_count = sizeof("@ + value + ") * static_cast<size_t>(count);"@,
                                    ),
                                    d + 1,
                                    "auto ptr = reader.advance_bytes(byte_count);"@,
                                ),
                                d + 1,
                                "if (ptr.empty() && count > 0) return false;"@,
                            ),
                            d + 1,
                            "value.content_ptr = ptr.data(); value.t_count = count;"@,
                        )
                    } else {
                        put(
                            put(
                                put(
                                    put(
                                        put(
                                            put(
                                                put(put(t1, d + 1, "value.clear();"@), d + 1, "value.reserve(static_cast<size_t>(count));"@),
                                                d + 1,
                                                "for (size_t i = 0; i < static_cast<size_t>(count); ++i)"@,
                                            ),
                                            d + 1,
                                            "{"@,
                                        ),
                                        d + 2,
                                        value + " elem{};"@,
                                    ),
                                    d + 2,
                                    "if (!read_value(reader, elem)) return false;"@,
                                ),
                                d + 2,
                                "value.push_back(std::move(elem));"@,
                            ),
                            d + 1,
                            "}"@,
                        )
                    };
                    Ok(put(put(t2, d + 1, "return true;"@), d, "}"@))
                },
            },
        },
        KindModel::FixedArray { .. } => Ok(
            if cpp_bulk_spec(w, id) {
                one_liner(t, d, read_head_cpp(name), "return read_scalar(reader, value);"@)
            } else {
                put(
                    put(
                        put(h, d + 1, "for (auto& elem : value) { if (!read_value(reader, elem)) return false; }"@),
                        d + 1,
                        "return true;"@,
                    ),
                    d,
                    "}"@,
                )
            },
        ),
        _ => Ok(t),
    }
}

/// The element loop of an array's writer, then the closing of the function.
pub open spec fn write_elems_tail(t: Seq<char>, d: nat) -> Seq<char> {
    put(
        put(
            put(
                put(put(t, d + 1, "for (auto const& elem : value)"@), d + 1, "{"@),
                d + 2,
                "if (!write_value(writer, elem)) return false;"@,
            ),
            d + 1,
            "}"@,
        ),
        d + 1,
        "return true;"@,
    )
}

/// The `write` template of `id`, written at indentation `d` after `t`.
pub open spec fn write_impl_cpp(w: WorldModel, t: Seq<char>, d: nat, id: TypeID) -> Result<Seq<char>, Seq<char>> {
    let name = cpp_name(w, id, Namespace::Write);
    let h = put(put(t, d, write_head_cpp(name)), d, "{"@);
    match kind_of(w, id) {
        KindModel::Pack { .. } => Ok(one_liner(t, d, write_head_cpp(name), "return write_scalar(writer, value);"@)),
        KindModel::Enum { underlying, .. } => match cpp_type_spec(w, underlying, Namespace::Write) {
            Err(e) => Err(e),
            Ok(base) => Ok(
                put(
                    put(put(h, d + 1, "auto raw = static_cast<"@ + base + ">(value);"@), d + 1, "return write_scalar(writer, raw);"@),
                    d,
                    "}"@,
                ),
            ),
        },
        KindModel::Bitfld { underlying, members } => match cpp_underlying_spec(w, underlying) {
            Err(e) => Err(e),
            Ok(p) => match cpp_primitive_spec(p) {
                Err(e) => Err(e),
                Ok(base) => {
                    let t1 = lines_of(put(h, d + 1, "uint64_t raw = 0;"@), d + 1, members, bit_write_line(), members.len() as int);
                    Ok(
                        put(
                            put(
                                put(t1, d + 1, base + " out = static_cast<"@ + base + ">(raw);"@),
                                d + 1,
                                "return write_scalar(writer, out);"@,
                            ),
                            d,
                            "}"@,
                        ),
                    )
                },
            },
        },
        KindModel::Variant { discriminant, members } => match cpp_type_spec(w, discriminant, Namespace::Write) {
            Err(e) => Err(e),
            Ok(disc) => {
                let t1 = put(put(h, d + 1, "switch (value.index())"@), d + 1, "{"@);
                let t2 = write_cases_cpp(w, t1, d + 2, disc, members, members.len() as int);
                Ok(put(put(put(t2, d + 2, "default: return false;"@), d + 1, "}"@), d, "}"@))
            },
        },
        KindModel::Sequence { members } => Ok(
            put(
                put(lines_of(h, d + 1, members, seq_write_line(), members.len() as int), d + 1, "return true;"@),
                d,
                "}"@,
            ),
        ),
        KindModel::DynamicArray { size_type, .. } => match cpp_type_spec(w, size_type, Namespace::Write) {
            Err(e) => Err(e),
            Ok(size) => match cpp_underlying_spec(w, size_type) {
                Err(e) => Err(e),
                Ok(p) => {
                    let t1 = put(
                        put(
                            put(
                                put(h, d + 1, "auto count = value.size();"@),
                                d + 1,
                                "if (count > static_cast<size_t>("@ + max_expr(p) + ")) return false;"@,
                            ),
                            d + 1,
                            size + " count_raw = static_cast<"@ + size + ">(count);"@,
                        ),
                        d + 1,
                        "if (!write_scalar(writer, count_raw)) return false;"@,
                    );
                    Ok(put(write_elems_tail(t1, d), d, "}"@))
                },
            },
        },
        KindModel::FixedArray { value_type, .. } => match cpp_type_spec(w, value_type, Namespace::Write) {
            Err(e) => Err(e),
            Ok(_) => Ok(put(write_elems_tail(h, d), d, "}"@)),
        },
        _ => Ok(t),
    }
}


/// Writes a function head and opens its body.
fn emit_open(out: &mut CodeWriter, head: &str)
    requires
        old(out).braced(),
        old(out).depth() + 8 < usize::MAX,
    ensures
        final(out).depth() == old(out).depth() + 1,
        final(out).same_marks(old(out)),
        final(out).text() == put(put(old(out).text(), old(out).depth(), head@), old(out).depth(), "{"@),
{
    proof {
        lemma_braces();
    }
    out.wln(head);
    out.indent();
}

/// Closes a body.
fn emit_close(out: &mut CodeWriter)
    requires
        old(out).braced(),
        old(out).depth() > 0,
    ensures
        final(out).depth() == old(out).depth() - 1,
        final(out).same_marks(old(out)),
        final(out).text() == put(old(out).text(), (old(out).depth() - 1) as nat, "}"@),
{
    proof {
        lemma_braces();
    }
    out.dedent();
}

/// The position of the last case with tag `v`.
fn last_index_of(ms: &Vec<crate::compile::types::VariantMember>, v: u64) -> (r: usize)
    ensures
        r == last_with_value(crate::compile::types::variant_members_model(ms@), v, ms@.len() as int),
{
    let ghost vm = crate::compile::types::variant_members_model(ms@);
    let mut r: usize = 0;
    let mut i: usize = 0;
    while i < ms.len()
        invariant
            vm == crate::compile::types::variant_members_model(ms@),
            i <= ms@.len(),
            r as int == last_with_value(vm, v, i as int),
        decreases ms.len() - i,
    {
        if ms[i].value == v {
            r = i;
        }
        i = i + 1;
    }
    r
}

fn emit_read_enum_cpp(ctx: &CppContext, out: &mut CodeWriter, id: TypeID, ty: &Type) -> (r: Result<(), String>)
    requires
        ctx.ready(),
        has_id(ctx.world_model().defs, id),
        ty@ == def_of(ctx.world_model().defs, id),
        old(out).braced(),
        old(out).depth() + 8 < usize::MAX,
        ty.kind is Enum,
    ensures
        final(out).depth() == old(out).depth(),
        final(out).same_marks(old(out)),
        match (r, read_impl_cpp(ctx.world_model(), ctx.guard(), old(out).text(), old(out).depth(), id)) {
            (Ok(_), Ok(t)) => final(out).text() == t,
            (Err(a), Err(b)) => a@ == b,
            _ => false,
        },
{
    let ghost w = ctx.world_model();
    let ghost d = out.depth();
    proof {
        lemma_braces();
        ctx.lemma_ready_world();
    }
    let TypeKind::Enum(e) = &ty.kind else {
        return Ok(());
    };
    proof {
        assert(crate::compile::verify::refs(kind_of(w, id))[0] == e.underlying);
        lemma_ref_defined(w, id, 0);
    }
    let name = ctx.name_of(id, Namespace::Read);
    let base = ctx.cpp_type(e.underlying, Namespace::Read)?;
    emit_open(out, cat3("template <class Reader> inline bool read(Reader& reader, ", name.as_str(), "& value)").as_str());
    out.wln(&cat2(base.as_str(), " raw{};"));
    out.wln("if (!read_scalar(reader, raw)) return false;");
    out.wln("switch (raw)");
    out.indent();
    let ghost t2 = out.text();
    let ghost ems = crate::intermediate::ast::enum_members_model(e.members@);
    let mut i: usize = 0;
    while i < e.members.len()
        invariant
            out.depth() == d + 2,
            out.braced(),
            ems == crate::intermediate::ast::enum_members_model(e.members@),
            i <= ems.len(),
            out.text() == lines_of(t2, d + 2, ems, enum_case(name@), i as int),
        decreases e.members.len() - i,
    {
        let m = &e.members[i];
        let v = crate::text::i64_to_string(m.value);
        let n = sanitize(m.name.as_str());
        let l = cat6("case ", v.as_str(), ": value = ", name.as_str(), "::", cat2(n.as_str(), "; return true;").as_str());
        proof {
            assert(l@ =~= enum_case(name@)(ems[i as int]));
        }
        out.wln(&l);
        i = i + 1;
    }
    if let Some(df) = &e.default {
        let n = sanitize(df.name.as_str());
        out.wln(&cat5("default: value = ", name.as_str(), "::", n.as_str(), "; return true;"));
    } else {
        out.wln("default: return false;");
    }
    emit_close(out);
    emit_close(out);
    Ok(())
}

fn emit_read_bitfld_cpp(ctx: &CppContext, out: &mut CodeWriter, id: TypeID, ty: &Type) -> (r: Result<(), String>)
    requires
        ctx.ready(),
        bits_ok(ctx.world_model()),
        has_id(ctx.world_model().defs, id),
        ty@ == def_of(ctx.world_model().defs, id),
        old(out).braced(),
        old(out).depth() + 8 < usize::MAX,
        ty.kind is Bitfld,
    ensures
        final(out).depth() == old(out).depth(),
        final(out).same_marks(old(out)),
        match (r, read_impl_cpp(ctx.world_model(), ctx.guard(), old(out).text(), old(out).depth(), id)) {
            (Ok(_), Ok(t)) => final(out).text() == t,
            (Err(a), Err(b)) => a@ == b,
            _ => false,
        },
{
    let ghost w = ctx.world_model();
    let ghost d = out.depth();
    proof {
        lemma_braces();
        ctx.lemma_ready_world();
        crate::compile::types::lemma_def_index(w.defs, id);
        assert(ranges_ok(w.defs[crate::compile::types::def_index(w.defs, id)].1.kind));
    }
    let TypeKind::Bitfld(b) = &ty.kind else {
        return Ok(());
    };
    proof {
        assert(crate::compile::verify::refs(kind_of(w, id))[0] == b.underlying);
        lemma_ref_defined(w, id, 0);
    }
    let name = ctx.name_of(id, Namespace::Read);
    let p = ctx.underlying_primitive(b.underlying)?;
    let base = super::cpp::map_primitive(p)?;
    emit_open(out, cat3("template <class Reader> inline bool read(Reader& reader, ", name.as_str(), "& value)").as_str());
    out.wln(&cat2(base.as_str(), " raw{};"));
    out.wln("if (!read_scalar(reader, raw)) return false;");
    out.wln("auto bits = static_cast<uint64_t>(raw);");
    let ghost t1 = out.text();
    let ghost ms = crate::compile::types::bitfld_members_model(b.members@);
    let ghost goal = match try_lines_of(t1, d + 1, ms, bit_read_line(w), ms.len() as int) {
        Err(e) => Err(e),
        Ok(t2) => Ok(put(put(t2, d + 1, "return true;"@), d, "}"@)),
    };
    assert(read_impl_cpp(w, ctx.guard(), old(out).text(), d, id) == goal);
    let mut i: usize = 0;
    while i < b.members.len()
        invariant
            read_impl_cpp(w, ctx.guard(), old(out).text(), d, id) == goal,
            goal == (match try_lines_of(t1, d + 1, ms, bit_read_line(w), ms.len() as int) {
                Err(e) => Err(e),
                Ok(t2) => Ok(put(put(t2, d + 1, "return true;"@), d, "}"@)),
            }),
            ctx.ready(),
            w == ctx.world_model(),
            world_ready(w),
            has_id(w.defs, id),
            kind_of(w, id) == (KindModel::Bitfld { underlying: b.underlying, members: ms }),
            ranges_ok(kind_of(w, id)),
            ms == crate::compile::types::bitfld_members_model(b.members@),
            out.depth() == d + 1,
            out.braced(),
            d == old(out).depth(),
            old(out).braced(),
            d + 8 < usize::MAX,
            i <= ms.len(),
            try_lines_of(t1, d + 1, ms, bit_read_line(w), i as int) == Ok::<Seq<char>, Seq<char>>(out.text()),
        decreases b.members.len() - i,
    {
        let m = &b.members[i];
        proof {
            assert(ms[i as int] == m@);
            assert(0 <= i < ms.len());
            super::rust_writes::lemma_member_range(b.underlying, ms, i as int);
            assert(crate::compile::verify::refs(kind_of(w, id))[i + 1] == m.underlying);
            lemma_ref_defined(w, id, i + 1);
        }
        let mt = match ctx.cpp_type(m.underlying, Namespace::Read) {
            Ok(x) => x,
            Err(e) => {
                proof {
                    lemma_try_lines_err(t1, d + 1, ms, bit_read_line(w), i + 1, ms.len() as int);
                }
                out.dedent();
                return Err(e);
            },
        };
        let start = crate::text::u32_to_string(m.range.start);
        let width = m.range.end - m.range.start + 1;
        let mask = crate::text::u128_to_hex(crate::text::low_mask(width));
        let target = super::cpp::assign_target(m.name.as_str());
        let l = cat7(target.as_str(), " = static_cast<", mt.as_str(), ">((bits >> ", start.as_str(), ") & 0x", cat2(mask.as_str(), "ull);").as_str());
        proof {
            assert(l@ =~= "value."@ + rust_ident(ms[i as int].name) + " = static_cast<"@ + mt@ + ">((bits >> "@ + decimal(
                ms[i as int].range.start as nat,
            ) + ") & 0x"@ + member_mask(ms[i as int]) + "ull);"@);
        }
        out.wln(&l);
        i = i + 1;
    }
    out.wln("return true;");
    emit_close(out);
    Ok(())
}


pub proof fn lemma_read_cases_cpp_err(w: WorldModel, t: Seq<char>, d: nat, ms: Seq<VariantMemberModel>, k: int, n: int)
    requires
        0 <= k <= n <= ms.len(),
        read_cases_cpp(w, t, d, ms, k) is Err,
    ensures
        read_cases_cpp(w, t, d, ms, n) == read_cases_cpp(w, t, d, ms, k),
    decreases n - k,
{
    if n > k {
        lemma_read_cases_cpp_err(w, t, d, ms, k, n - 1);
    }
}

/// Writes the `case` of a variant's reader for member `m`, whose alternative is `idx`.
fn emit_read_case_cpp(ctx: &CppContext, out: &mut CodeWriter, m: &crate::compile::types::VariantMember, idx: usize) -> (r: Result<
    (),
    String,
>)
    requires
        ctx.ready(),
        has_id(ctx.world_model().defs, m.ty),
        old(out).braced(),
        old(out).depth() + 4 < usize::MAX,
    ensures
        final(out).depth() == old(out).depth(),
        final(out).same_marks(old(out)),
        match (r, read_case_cpp(ctx.world_model(), old(out).text(), old(out).depth(), m@, idx as int)) {
            (Ok(_), Ok(t)) => final(out).text() == t,
            (Err(a), Err(b)) => a@ == b,
            _ => false,
        },
{
    proof {
        lemma_braces();
    }
    let target = ctx.cpp_type(m.ty, Namespace::Read)?;
    let v = crate::text::u64_to_string(m.value);
    out.wln(&cat3("case ", v.as_str(), ":"));
    out.indent();
    if ctx.is_void(m.ty) {
        out.wln("value = std::monostate{};");
        out.wln("return true;");
    } else {
        out.wln(&cat2(target.as_str(), " payload{};"));
        out.wln("if (!read_value(reader, payload)) return false;");
        let k = crate::text::usize_to_string(idx);
        out.wln(&cat3("value.emplace<", k.as_str(), ">(payload);"));
        out.wln("return true;");
    }
    out.dedent();
    Ok(())
}

fn emit_read_variant_cpp(ctx: &CppContext, out: &mut CodeWriter, id: TypeID, ty: &Type) -> (r: Result<(), String>)
    requires
        ctx.ready(),
        has_id(ctx.world_model().defs, id),
        ty@ == def_of(ctx.world_model().defs, id),
        old(out).braced(),
        old(out).depth() + 8 < usize::MAX,
        ty.kind is Variant,
    ensures
        final(out).depth() == old(out).depth(),
        final(out).same_marks(old(out)),
        match (r, read_impl_cpp(ctx.world_model(), ctx.guard(), old(out).text(), old(out).depth(), id)) {
            (Ok(_), Ok(t)) => final(out).text() == t,
            (Err(a), Err(b)) => a@ == b,
            _ => false,
        },
{
    let ghost w = ctx.world_model();
    let ghost d = out.depth();
    proof {
        lemma_braces();
        ctx.lemma_ready_world();
    }
    let TypeKind::Variant(v) = &ty.kind else {
        return Ok(());
    };
    proof {
        assert(crate::compile::verify::refs(kind_of(w, id))[0] == v.discriminant);
        lemma_ref_defined(w, id, 0);
    }
    let name = ctx.name_of(id, Namespace::Read);
    let disc = ctx.cpp_type(v.discriminant, Namespace::Read)?;
    emit_open(out, cat3("template <class Reader> inline bool read(Reader& reader, ", name.as_str(), "& value)").as_str());
    out.wln(&cat2(disc.as_str(), " tag{};"));
    out.wln("if (!read_scalar(reader, tag)) return false;");
    out.wln("switch (tag)");
    out.indent();
    let ghost t1 = out.text();
    let ghost ms = crate::compile::types::variant_members_model(v.members@);
    let ghost goal = match read_cases_cpp(w, t1, d + 2, ms, ms.len() as int) {
        Err(e) => Err(e),
        Ok(t2) => Ok(put(put(put(t2, d + 2, "default: return false;"@), d + 1, "}"@), d, "}"@)),
    };
    assert(read_impl_cpp(w, ctx.guard(), old(out).text(), d, id) == goal);
    let mut i: usize = 0;
    while i < v.members.len()
        invariant
            read_impl_cpp(w, ctx.guard(), old(out).text(), d, id) == goal,
            goal == (match read_cases_cpp(w, t1, d + 2, ms, ms.len() as int) {
                Err(e) => Err(e),
                Ok(t2) => Ok(put(put(put(t2, d + 2, "default: return false;"@), d + 1, "}"@), d, "}"@)),
            }),
            ctx.ready(),
            w == ctx.world_model(),
            world_ready(w),
            has_id(w.defs, id),
            kind_of(w, id) == (KindModel::Variant { discriminant: v.discriminant, members: ms }),
            ms == crate::compile::types::variant_members_model(v.members@),
            out.depth() == d + 2,
            d == old(out).depth(),
            old(out).braced(),
            d + 8 < usize::MAX,
            out.braced(),
            i <= ms.len(),
            read_cases_cpp(w, t1, d + 2, ms, i as int) == Ok::<Seq<char>, Seq<char>>(out.text()),
        decreases v.members.len() - i,
    {
        let m = &v.members[i];
        proof {
            assert(ms[i as int] == m@);
            assert(crate::compile::verify::refs(kind_of(w, id))[i + 1] == m.ty);
            lemma_ref_defined(w, id, i + 1);
        }
        let idx = last_index_of(&v.members, m.value);
        match emit_read_case_cpp(ctx, out, m, idx) {
            Ok(()) => {},
            Err(e) => {
                proof {
                    lemma_read_cases_cpp_err(w, t1, d + 2, ms, i + 1, ms.len() as int);
                }
                out.dedent();
                out.dedent();
                return Err(e);
            },
        }
        i = i + 1;
    }
    out.wln("default: return false;");
    emit_close(out);
    emit_close(out);
    Ok(())
}

fn emit_read_dyn_cpp(ctx: &CppContext, out: &mut CodeWriter, id: TypeID, ty: &Type) -> (r: Result<(), String>)
    requires
        ctx.ready(),
        has_id(ctx.world_model().defs, id),
        ty@ == def_of(ctx.world_model().defs, id),
        old(out).braced(),
        old(out).depth() + 8 < usize::MAX,
        ty.kind is DynamicArray,
    ensures
        final(out).depth() == old(out).depth(),
        final(out).same_marks(old(out)),
        match (r, read_impl_cpp(ctx.world_model(), ctx.guard(), old(out).text(), old(out).depth(), id)) {
            (Ok(_), Ok(t)) => final(out).text() == t,
            (Err(a), Err(b)) => a@ == b,
            _ => false,
        },
{
    let ghost w = ctx.world_model();
    proof {
        lemma_braces();
        ctx.lemma_ready_world();
    }
    let TypeKind::DynamicArray(arr) = &ty.kind else {
        return Ok(());
    };
    proof {
        assert(crate::compile::verify::refs(kind_of(w, id))[0] == arr.size_type);
        assert(crate::compile::verify::refs(kind_of(w, id))[1] == arr.value_type);
        lemma_ref_defined(w, id, 0);
        lemma_ref_defined(w, id, 1);
    }
    let name = ctx.name_of(id, Namespace::Read);
    let size_ty = ctx.cpp_type(arr.size_type, Namespace::Read)?;
    let value_ty = ctx.cpp_type(arr.value_type, Namespace::Read)?;
    emit_open(out, cat3("template <class Reader> inline bool read(Reader& reader, ", name.as_str(), "& value)").as_str());
    out.wln(&cat2(size_ty.as_str(), " count_raw{};"));
    out.wln("if (!read_scalar(reader, count_raw)) return false;");
    out.wln("auto count = static_cast<uint64_t>(count_raw);");
    out.wln("if (count > static_cast<uint64_t>(std::numeric_limits<size_t>::max())) return false;");
    insert_cpp_size_check(ctx, out, value_ty.as_str());
    if ctx.can_bulk_array(id) {
        out.wln(&cat3("auto byte_count = sizeof(", value_ty.as_str(), ") * static_cast<size_t>(count);"));
        out.wln("auto ptr = reader.advance_bytes(byte_count);");
        out.wln("if (ptr.empty() && count > 0) return false;");
        out.wln("value.content_ptr = ptr.data(); value.t_count = count;");
    } else {
        out.wln("value.clear();");
        out.wln("value.reserve(static_cast<size_t>(count));");
        out.wln("for (size_t i = 0; i < static_cast<size_t>(count); ++i)");
        out.indent();
        out.wln(&cat2(value_ty.as_str(), " elem{};"));
        out.wln("if (!read_value(reader, elem)) return false;");
        out.wln("value.push_back(std::move(elem));");
        out.dedent();
    }
    out.wln("return true;");
    emit_close(out);
    Ok(())
}

/// Writes the `read` template of the type `id`, defined as `ty`; aliases, primitives and
/// `void` get none.
pub fn emit_read_impl(ctx: &CppContext, out: &mut CodeWriter, id: TypeID, ty: &Type) -> (r: Result<(), String>)
    requires
        ctx.ready(),
        bits_ok(ctx.world_model()),
        has_id(ctx.world_model().defs, id),
        ty@ == def_of(ctx.world_model().defs, id),
        old(out).braced(),
        old(out).depth() + 8 < usize::MAX,
    ensures
        final(out).depth() == old(out).depth(),
        final(out).same_marks(old(out)),
        match (r, read_impl_cpp(ctx.world_model(), ctx.guard(), old(out).text(), old(out).depth(), id)) {
            (Ok(_), Ok(t)) => final(out).text() == t,
            (Err(a), Err(b)) => a@ == b,
            _ => false,
        },
{
    let ghost w = ctx.world_model();
    proof {
        lemma_braces();
        ctx.lemma_ready_world();
    }
    match &ty.kind {
        TypeKind::Enum(_) => emit_read_enum_cpp(ctx, out, id, ty),
        TypeKind::Bitfld(_) => emit_read_bitfld_cpp(ctx, out, id, ty),
        TypeKind::Variant(_) => emit_read_variant_cpp(ctx, out, id, ty),
        TypeKind::DynamicArray(_) => emit_read_dyn_cpp(ctx, out, id, ty),
        TypeKind::Pack(_) => {
            let name = ctx.name_of(id, Namespace::Read);
            emit_open(out, cat3("template <class Reader> inline bool read(Reader& reader, ", name.as_str(), "& value)").as_str());
            out.wln("return read_scalar(reader, value);");
            emit_close(out);
            Ok(())
        },
        TypeKind::Sequence(sq) => {
            let ghost d = out.depth();
            let name = ctx.name_of(id, Namespace::Read);
            emit_open(out, cat3("template <class Reader> inline bool read(Reader& reader, ", name.as_str(), "& value)").as_str());
            let ghost t1 = out.text();
            let ghost ms = crate::compile::types::struct_members_model(sq.members@);
            let mut i: usize = 0;
            while i < sq.members.len()
                invariant
                    out.depth() == d + 1,
                    out.braced(),
                    ms == crate::compile::types::struct_members_model(sq.members@),
                    i <= ms.len(),
                    out.text() == lines_of(t1, d + 1, ms, seq_read_line(), i as int),
                decreases sq.members.len() - i,
            {
                let n = sanitize(sq.members[i].name.as_str());
                let l = cat3("if (!read_value(reader, value.", n.as_str(), ")) return false;");
                proof {
                    assert(ms[i as int].name == sq.members@[i as int].name@);
                    assert(l@ =~= seq_read_line()(ms[i as int]));
                }
                out.wln(&l);
                i = i + 1;
            }
            out.wln("return true;");
            emit_close(out);
            Ok(())
        },
        TypeKind::FixedArray(_) => {
            let name = ctx.name_of(id, Namespace::Read);
            emit_open(out, cat3("template <class Reader> inline bool read(Reader& reader, ", name.as_str(), "& value)").as_str());
            if ctx.can_bulk_array(id) {
                out.wln("return read_scalar(reader, value);");
            } else {
                out.wln("for (auto& elem : value) { if (!read_value(reader, elem)) return false; }");
                out.wln("return true;");
            }
            emit_close(out);
            Ok(())
        },
        _ => Ok(()),
    }
}


/// The C++ expression for the largest count of an unsigned size type.
fn max_expr_of(p: Primitive) -> (r: &'static str)
    ensures
        r@ == max_expr(p),
{
    match (p.dtype, p.sign, p.width) {
        (Datatype::Integer, Signedness::Unsigned, BitWidth::W8) => "std::numeric_limits<uint8_t>::max()",
        (Datatype::Integer, Signedness::Unsigned, BitWidth::W16) => "std::numeric_limits<uint16_t>::max()",
        (Datatype::Integer, Signedness::Unsigned, BitWidth::W32) => "std::numeric_limits<uint32_t>::max()",
        (Datatype::Integer, Signedness::Unsigned, BitWidth::W64) => "std::numeric_limits<uint64_t>::max()",
        _ => "std::numeric_limits<uint64_t>::max()",
    }
}

/// Writes the element loop of an array's writer and `return true;`.
fn emit_elems_tail(out: &mut CodeWriter)
    requires
        old(out).braced(),
        old(out).depth() > 0,
        old(out).depth() + 4 < usize::MAX,
    ensures
        final(out).depth() == old(out).depth(),
        final(out).same_marks(old(out)),
        final(out).text() == write_elems_tail(old(out).text(), (old(out).depth() - 1) as nat),
{
    proof {
        lemma_braces();
    }
    let ghost d = (out.depth() - 1) as nat;
    out.wln("for (auto const& elem : value)");
    out.indent();
    out.wln("if (!write_value(writer, elem)) return false;");
    out.dedent();
    out.wln("return true;");
    assert(d + 1 == out.depth());
}

fn emit_write_bitfld_cpp(ctx: &CppContext, out: &mut CodeWriter, id: TypeID, ty: &Type) -> (r: Result<(), String>)
    requires
        ctx.ready(),
        bits_ok(ctx.world_model()),
        has_id(ctx.world_model().defs, id),
        ty@ == def_of(ctx.world_model().defs, id),
        old(out).braced(),
        old(out).depth() + 8 < usize::MAX,
        ty.kind is Bitfld,
    ensures
        final(out).depth() == old(out).depth(),
        final(out).same_marks(old(out)),
        match (r, write_impl_cpp(ctx.world_model(), old(out).text(), old(out).depth(), id)) {
            (Ok(_), Ok(t)) => final(out).text() == t,
            (Err(a), Err(b)) => a@ == b,
            _ => false,
        },
{
    let ghost w = ctx.world_model();
    let ghost d = out.depth();
    proof {
        lemma_braces();
        ctx.lemma_ready_world();
        crate::compile::types::lemma_def_index(w.defs, id);
        assert(ranges_ok(w.defs[crate::compile::types::def_index(w.defs, id)].1.kind));
    }
    let TypeKind::Bitfld(b) = &ty.kind else {
        return Ok(());
    };
    proof {
        assert(crate::compile::verify::refs(kind_of(w, id))[0] == b.underlying);
        lemma_ref_defined(w, id, 0);
    }
    let name = ctx.name_of(id, Namespace::Write);
    let p = ctx.underlying_primitive(b.underlying)?;
    let base = super::cpp::map_primitive(p)?;
    emit_open(out, cat3("template <class Writer> inline bool write(Writer& writer, ", name.as_str(), " const& value)").as_str());
    out.wln("uint64_t raw = 0;");
    let ghost t1 = out.text();
    let ghost ms = crate::compile::types::bitfld_members_model(b.members@);
    let mut i: usize = 0;
    while i < b.members.len()
        invariant
            kind_of(w, id) == (KindModel::Bitfld { underlying: b.underlying, members: ms }),
            ranges_ok(kind_of(w, id)),
            ms == crate::compile::types::bitfld_members_model(b.members@),
            out.depth() == d + 1,
            out.braced(),
            i <= ms.len(),
            out.text() == lines_of(t1, d + 1, ms, bit_write_line(), i as int),
        decreases b.members.len() - i,
    {
        let m = &b.members[i];
        proof {
            assert(ms[i as int] == m@);
            assert(0 <= i < ms.len());
            super::rust_writes::lemma_member_range(b.underlying, ms, i as int);
        }
        let start = crate::text::u32_to_string(m.range.start);
        let width = m.range.end - m.range.start + 1;
        let mask = crate::text::u128_to_hex(crate::text::low_mask(width));
        let n = sanitize(m.name.as_str());
        let l = cat7("raw |= (static_cast<uint64_t>(value.", n.as_str(), ") & 0x", mask.as_str(), "ull) << ", start.as_str(), ";");
        proof {
            assert(l@ =~= bit_write_line()(ms[i as int]));
        }
        out.wln(&l);
        i = i + 1;
    }
    out.wln(&cat4(base.as_str(), " out = static_cast<", base.as_str(), ">(raw);"));
    out.wln("return write_scalar(writer, out);");
    emit_close(out);
    Ok(())
}

/// Writes the `case` of a variant's writer for alternative `k`, member `m`.
fn emit_write_case_cpp(ctx: &CppContext, out: &mut CodeWriter, disc: &str, m: &crate::compile::types::VariantMember, k: usize)
    requires
        ctx.ready(),
        has_id(ctx.world_model().defs, m.ty),
        old(out).braced(),
        old(out).depth() + 4 < usize::MAX,
    ensures
        final(out).depth() == old(out).depth(),
        final(out).same_marks(old(out)),
        final(out).text() == write_case_cpp(ctx.world_model(), old(out).text(), old(out).depth(), disc@, m@, k as int),
{
    proof {
        lemma_braces();
    }
    let idx = crate::text::usize_to_string(k);
    let v = crate::text::u64_to_string(m.value);
    let tag = cat5("auto tag = static_cast<", disc, ">(", v.as_str(), ");");
    out.wln(&cat3("case ", idx.as_str(), ": "));
    out.indent();
    if ctx.is_void(m.ty) {
        out.wln(&tag);
        out.wln("if (!write_scalar(writer, tag)) return false;");
        out.wln("return true;");
    } else {
        out.wln(&cat3("auto payload = std::get<", idx.as_str(), ">(value);"));
        out.wln("if (payload == nullptr) return false;");
        out.wln(&tag);
        out.wln("if (!write_scalar(writer, tag)) return false;");
        out.wln("return write_value(writer, *payload);");
    }
    out.dedent();
}

fn emit_write_variant_cpp(ctx: &CppContext, out: &mut CodeWriter, id: TypeID, ty: &Type) -> (r: Result<(), String>)
    requires
        ctx.ready(),
        has_id(ctx.world_model().defs, id),
        ty@ == def_of(ctx.world_model().defs, id),
        old(out).braced(),
        old(out).depth() + 8 < usize::MAX,
        ty.kind is Variant,
    ensures
        final(out).depth() == old(out).depth(),
        final(out).same_marks(old(out)),
        match (r, write_impl_cpp(ctx.world_model(), old(out).text(), old(out).depth(), id)) {
            (Ok(_), Ok(t)) => final(out).text() == t,
            (Err(a), Err(b)) => a@ == b,
            _ => false,
        },
{
    let ghost w = ctx.world_model();
    let ghost d = out.depth();
    proof {
        lemma_braces();
        ctx.lemma_ready_world();
    }
    let TypeKind::Variant(v) = &ty.kind else {
        return Ok(());
    };
    proof {
        assert(crate::compile::verify::refs(kind_of(w, id))[0] == v.discriminant);
        lemma_ref_defined(w, id, 0);
    }
    let name = ctx.name_of(id, Namespace::Write);
    let disc = ctx.cpp_type(v.discriminant, Namespace::Write)?;
    emit_open(out, cat3("template <class Writer> inline bool write(Writer& writer, ", name.as_str(), " const& value)").as_str());
    out.wln("switch (value.index())");
    out.indent();
    let ghost t1 = out.text();
    let ghost ms = crate::compile::types::variant_members_model(v.members@);
    let mut i: usize = 0;
    while i < v.members.len()
        invariant
            ctx.ready(),
            w == ctx.world_model(),
            world_ready(w),
            has_id(w.defs, id),
            kind_of(w, id) == (KindModel::Variant { discriminant: v.discriminant, members: ms }),
            ms == crate::compile::types::variant_members_model(v.members@),
            out.depth() == d + 2,
            d + 8 < usize::MAX,
            out.braced(),
            i <= ms.len(),
            out.text() == write_cases_cpp(w, t1, d + 2, disc@, ms, i as int),
        decreases v.members.len() - i,
    {
        let m = &v.members[i];
        proof {
            assert(ms[i as int] == m@);
            assert(crate::compile::verify::refs(kind_of(w, id))[i + 1] == m.ty);
            lemma_ref_defined(w, id, i + 1);
        }
        emit_write_case_cpp(ctx, out, disc.as_str(), m, i);
        i = i + 1;
    }
    out.wln("default: return false;");
    emit_close(out);
    emit_close(out);
    Ok(())
}

fn emit_write_dyn_cpp(ctx: &CppContext, out: &mut CodeWriter, id: TypeID, ty: &Type) -> (r: Result<(), String>)
    requires
        ctx.ready(),
        has_id(ctx.world_model().defs, id),
        ty@ == def_of(ctx.world_model().defs, id),
        old(out).braced(),
        old(out).depth() + 8 < usize::MAX,
        ty.kind is DynamicArray,
    ensures
        final(out).depth() == old(out).depth(),
        final(out).same_marks(old(out)),
        match (r, write_impl_cpp(ctx.world_model(), old(out).text(), old(out).depth(), id)) {
            (Ok(_), Ok(t)) => final(out).text() == t,
            (Err(a), Err(b)) => a@ == b,
            _ => false,
        },
{
    let ghost w = ctx.world_model();
    proof {
        lemma_braces();
        ctx.lemma_ready_world();
    }
    let TypeKind::DynamicArray(arr) = &ty.kind else {
        return Ok(());
    };
    proof {
        assert(crate::compile::verify::refs(kind_of(w, id))[0] == arr.size_type);
        lemma_ref_defined(w, id, 0);
    }
    let name = ctx.name_of(id, Namespace::Write);
    let size_ty = ctx.cpp_type(arr.size_type, Namespace::Write)?;
    emit_open(out, cat3("template <class Writer> inline bool write(Writer& writer, ", name.as_str(), " const& value)").as_str());
    out.wln("auto count = value.size();");
    let p = match ctx.underlying_primitive(arr.size_type) {
        Ok(p) => p,
        Err(e) => {
            out.dedent();
            return Err(e);
        },
    };
    out.wln(&cat3("if (count > static_cast<size_t>(", max_expr_of(p), ")) return false;"));
    out.wln(&cat4(size_ty.as_str(), " count_raw = static_cast<", size_ty.as_str(), ">(count);"));
    out.wln("if (!write_scalar(writer, count_raw)) return false;");
    emit_elems_tail(out);
    emit_close(out);
    Ok(())
}

/// Writes the `write` template of the type `id`, defined as `ty`; aliases, primitives and
/// `void` get none.
pub fn emit_write_impl(ctx: &CppContext, out: &mut CodeWriter, id: TypeID, ty: &Type) -> (r: Result<(), String>)
    requires
        ctx.ready(),
        bits_ok(ctx.world_model()),
        has_id(ctx.world_model().defs, id),
        ty@ == def_of(ctx.world_model().defs, id),
        old(out).braced(),
        old(out).depth() + 8 < usize::MAX,
    ensures
        final(out).depth() == old(out).depth(),
        final(out).same_marks(old(out)),
        match (r, write_impl_cpp(ctx.world_model(), old(out).text(), old(out).depth(), id)) {
            (Ok(_), Ok(t)) => final(out).text() == t,
            (Err(a), Err(b)) => a@ == b,
            _ => false,
        },
{
    let ghost w = ctx.world_model();
    proof {
        lemma_braces();
        ctx.lemma_ready_world();
    }
    match &ty.kind {
        TypeKind::Bitfld(_) => emit_write_bitfld_cpp(ctx, out, id, ty),
        TypeKind::Variant(_) => emit_write_variant_cpp(ctx, out, id, ty),
        TypeKind::DynamicArray(_) => emit_write_dyn_cpp(ctx, out, id, ty),
        TypeKind::Pack(_) => {
            let name = ctx.name_of(id, Namespace::Write);
            emit_open(out, cat3("template <class Writer> inline bool write(Writer& writer, ", name.as_str(), " const& value)").as_str());
            out.wln("return write_scalar(writer, value);");
            emit_close(out);
            Ok(())
        },
        TypeKind::Enum(e) => {
            proof {
                assert(crate::compile::verify::refs(kind_of(w, id))[0] == e.underlying);
                lemma_ref_defined(w, id, 0);
            }
            let name = ctx.name_of(id, Namespace::Write);
            let base = ctx.cpp_type(e.underlying, Namespace::Write)?;
            emit_open(out, cat3("template <class Writer> inline bool write(Writer& writer, ", name.as_str(), " const& value)").as_str());
            out.wln(&cat3("auto raw = static_cast<", base.as_str(), ">(value);"));
            out.wln("return write_scalar(writer, raw);");
            emit_close(out);
            Ok(())
        },
        TypeKind::Sequence(sq) => {
            let ghost d = out.depth();
            let name = ctx.name_of(id, Namespace::Write);
            emit_open(out, cat3("template <class Writer> inline bool write(Writer& writer, ", name.as_str(), " const& value)").as_str());
            let ghost t1 = out.text();
            let ghost ms = crate::compile::types::struct_members_model(sq.members@);
            let mut i: usize = 0;
            while i < sq.members.len()
                invariant
                    out.depth() == d + 1,
                    out.braced(),
                    ms == crate::compile::types::struct_members_model(sq.members@),
                    i <= ms.len(),
                    out.text() == lines_of(t1, d + 1, ms, seq_write_line(), i as int),
                decreases sq.members.len() - i,
            {
                let n = sanitize(sq.members[i].name.as_str());
                let l = cat3("if (!write_value(writer, value.", n.as_str(), ")) return false;");
                proof {
                    assert(ms[i as int].name == sq.members@[i as int].name@);
                    assert(l@ =~= seq_write_line()(ms[i as int]));
                }
                out.wln(&l);
                i = i + 1;
            }
            out.wln("return true;");
            emit_close(out);
            Ok(())
        },
        TypeKind::FixedArray(arr) => {
            proof {
                assert(crate::compile::verify::refs(kind_of(w, id))[0] == arr.value_type);
                lemma_ref_defined(w, id, 0);
            }
            let name = ctx.name_of(id, Namespace::Write);
            let _value_ty = ctx.cpp_type(arr.value_type, Namespace::Write)?;
            emit_open(out, cat3("template <class Writer> inline bool write(Writer& writer, ", name.as_str(), " const& value)").as_str());
            emit_elems_tail(out);
            emit_close(out);
            Ok(())
        },
        _ => Ok(()),
    }
}

} // verus!
