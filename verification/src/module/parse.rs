//! Building a module from tokens: declarations (`pack`, `enum`, `bits`, `variant`,
//! `seq`) with bodies of `-` members and `=` defaults, and the inline array types
//! `{N * M}`, `{I * M}` and `[I * M]`.
use vstd::prelude::*;

use super::check::validate_spec;
use super::{
    PartialModule, Type, TypeKind, ModuleBuildError, anon_spec, builtin_table, define_spec, install_type_id_spec, is_integer_spec,
    lookup_spec, lookup_type_id_spec, name_span_spec, table_wf, ArrayKind, BitRange,
    BuildErrorModel, KindModel, Primitive, TableModel, TypeID, TypeModel,
};
use crate::tokenreader::{
    TokenReader, after_one, arrow_result, cur_span, ident_result, newline_result, number_outcome,
    peek_symbol, scan_kw, symbol_result, unexpected,
};
use crate::tokens::{
    lemma_lex_from_len, lex_str, lex_spec, span_union, Keyword, KindModel as TokKind, Span, Symbol, Token, TokenKind, TokenModel,
};

verus! {

/// What a parsing step gives: the table and the tokens after it, and a value.
pub type Step<X> = Result<(TableModel, Seq<TokenModel>, X), BuildErrorModel>;

/// The table keeps enough identifiers in reserve for the tokens left: each identifier
/// handed out is paid for by a token consumed before it.
pub open spec fn budget(m: TableModel, ts: Seq<TokenModel>) -> bool {
    table_wf(m) && m.last + ts.len() <= u32::MAX
}

/// A step from `(m, ts)` to `(m2, rest)` consumed tokens and spent no more identifiers
/// than it consumed tokens.
pub open spec fn spent(m: TableModel, ts: Seq<TokenModel>, m2: TableModel, rest: Seq<TokenModel>) -> bool {
    &&& m.last <= m2.last
    &&& m2.last + rest.len() <= m.last + ts.len()
    &&& rest.len() <= ts.len()
    &&& table_wf(m) ==> table_wf(m2)
}

pub open spec fn decl_head_spec(m: TableModel, ts: Seq<TokenModel>) -> Step<TypeID> {
    match ident_result(ts) {
        Err(e) => Err(e),
        Ok((n, sp)) => match install_type_id_spec(m, n, sp) {
            Err(e) => Err(e),
            Ok((m1, id)) => Ok((m1, after_one(ts), id)),
        },
    }
}

pub open spec fn decl_head_sub_spec(m: TableModel, ts: Seq<TokenModel>) -> Step<TypeID> {
    match symbol_result(ts, Symbol::Colon) {
        Err(e) => Err(e),
        Ok(_) => {
            let t1 = after_one(ts);
            match ident_result(t1) {
                Err(e) => Err(e),
                Ok((n, sp)) => match lookup_type_id_spec(m, n, sp) {
                    Err(e) => Err(e),
                    Ok((m1, id)) => Ok((m1, after_one(t1), id)),
                },
            }
        },
    }
}

/// `* M }` or `* M ]` after the first part of an array type: the value type's name and
/// span, and the tokens after the closing bracket.
pub open spec fn array_tail(ts: Seq<TokenModel>, close: Symbol) -> Result<
    (Seq<char>, Span, Seq<TokenModel>),
    BuildErrorModel,
> {
    match symbol_result(ts, Symbol::Asterisk) {
        Err(e) => Err(e),
        Ok(_) => {
            let t1 = after_one(ts);
            match ident_result(t1) {
                Err(e) => Err(e),
                Ok((n, sp)) => {
                    let t2 = after_one(t1);
                    match symbol_result(t2, close) {
                        Err(e) => Err(e),
                        Ok(_) => Ok((n, sp, after_one(t2))),
                    }
                },
            }
        },
    }
}

pub open spec fn starts_with(ts: Seq<TokenModel>, sym: Symbol) -> bool {
    ts.len() > 0 && ts[0].kind == TokKind::Symbol(sym)
}

/// A member's type: `{N * M}` and `{I * M}` make dynamic arrays, `[I * M]` a fixed
/// array, each a new nameless definition; otherwise a type name.
pub open spec fn inline_type_spec(m: TableModel, ts: Seq<TokenModel>) -> Step<TypeID> {
    if starts_with(ts, Symbol::LBrace) {
        let t1 = ts.drop_first();
        if t1.len() == 0 {
            Err(BuildErrorModel::UnexpectedEOF)
        } else {
            let tok = t1[0];
            let t2 = t1.drop_first();
            match tok.kind {
                TokKind::Number(n) => match array_tail(t2, Symbol::RBrace) {
                    Err(e) => Err(e),
                    Ok((vn, vs, t5)) => match lookup_type_id_spec(m, vn, vs) {
                        Err(e) => Err(e),
                        Ok((m1, vt)) => {
                            let at = span_union(tok.span, cur_span(t5));
                            let (m2, id) = anon_spec(
                                m1,
                                TypeModel {
                                    defined_at: at,
                                    kind: KindModel::DynamicArray(
                                        ArrayKind::Fixed { count: n, value_type: vt },
                                    ),
                                },
                            );
                            Ok((m2, t5, id))
                        },
                    },
                },
                TokKind::Identifier(name) => match lookup_type_id_spec(m, name, tok.span) {
                    Err(e) => Err(e),
                    Ok((m1, st)) => match array_tail(t2, Symbol::RBrace) {
                        Err(e) => Err(e),
                        Ok((vn, vs, t5)) => match lookup_type_id_spec(m1, vn, vs) {
                            Err(e) => Err(e),
                            Ok((m2, vt)) => {
                                let at = span_union(tok.span, cur_span(t5));
                                let (m3, id) = anon_spec(
                                    m2,
                                    TypeModel {
                                        defined_at: at,
                                        kind: KindModel::DynamicArray(
                                            ArrayKind::Dynamic { size_type: st, value_type: vt },
                                        ),
                                    },
                                );
                                Ok((m3, t5, id))
                            },
                        },
                    },
                },
                _ => Err(unexpected("number or identifier"@, tok)),
            }
        }
    } else if starts_with(ts, Symbol::LBracket) {
        let t1 = ts.drop_first();
        let (nr, k) = number_outcome(t1);
        match nr {
            Err(e) => Err(e),
            Ok((c, sp)) => if c < 0 {
                Err(BuildErrorModel::ArrayCountNotPositive { i_m: "[I * M]"@, at: sp })
            } else {
                match array_tail(t1.skip(k as int), Symbol::RBracket) {
                    Err(e) => Err(e),
                    Ok((vn, vs, t5)) => match lookup_type_id_spec(m, vn, vs) {
                        Err(e) => Err(e),
                        Ok((m1, vt)) => {
                            let (m2, id) = anon_spec(
                                m1,
                                TypeModel {
                                    defined_at: cur_span(t5),
                                    kind: KindModel::FixedArray(
                                        ArrayKind::Fixed { count: c as u64, value_type: vt },
                                    ),
                                },
                            );
                            Ok((m2, t5, id))
                        },
                    },
                }
            },
        }
    } else {
        match ident_result(ts) {
            Err(e) => Err(e),
            Ok((n, sp)) => match lookup_type_id_spec(m, n, sp) {
                Err(e) => Err(e),
                Ok((m1, id)) => Ok((m1, after_one(ts), id)),
            },
        }
    }
}

/// `name: type` then the end of the line: a member of a pack or a sequence.
pub open spec fn named_member_spec(m: TableModel, ts: Seq<TokenModel>) -> Step<(Seq<char>, TypeID)> {
    match ident_result(ts) {
        Err(e) => Err(e),
        Ok((name, _)) => {
            let t1 = after_one(ts);
            match symbol_result(t1, Symbol::Colon) {
                Err(e) => Err(e),
                Ok(_) => match inline_type_spec(m, after_one(t1)) {
                    Err(e) => Err(e),
                    Ok((m2, t3, ty)) => match newline_result(t3) {
                        Err(e) => Err(e),
                        Ok(_) => Ok((m2, after_one(t3), (name, ty))),
                    },
                },
            }
        },
    }
}

/// `name = value` then the end of the line: a value or the default of an enum.
pub open spec fn enum_item_spec(ts: Seq<TokenModel>) -> Result<
    (Seq<TokenModel>, (Seq<char>, i64)),
    BuildErrorModel,
> {
    match ident_result(ts) {
        Err(e) => Err(e),
        Ok((name, _)) => {
            let t1 = after_one(ts);
            match symbol_result(t1, Symbol::Equals) {
                Err(e) => Err(e),
                Ok(_) => {
                    let t2 = after_one(t1);
                    let (nr, k) = number_outcome(t2);
                    let t3 = t2.skip(k as int);
                    match nr {
                        Err(_) => Err(BuildErrorModel::EnumValueNotInteger(cur_span(t3))),
                        Ok((v, _)) => match newline_result(t3) {
                            Err(e) => Err(e),
                            Ok(_) => Ok((after_one(t3), (name, v))),
                        },
                    }
                },
            }
        },
    }
}

/// A number token's value cut to 32 bits, as a bit position.
pub open spec fn bit_number(ts: Seq<TokenModel>) -> Result<u32, BuildErrorModel> {
    if ts.len() == 0 {
        Err(BuildErrorModel::UnexpectedEOF)
    } else {
        match ts[0].kind {
            TokKind::Number(n) => Ok(n as u32),
            _ => Err(unexpected("number"@, ts[0])),
        }
    }
}

/// `start[-end] name: type` then the end of the line: a bitfield member, whose type
/// must be a primitive or an enum and whose range must not run backwards.
pub open spec fn bits_member_spec(m: TableModel, ts: Seq<TokenModel>) -> Step<
    (Seq<char>, TypeID, BitRange),
> {
    match bit_number(ts) {
        Err(e) => Err(e),
        Ok(start) => {
            let t1 = after_one(ts);
            let ranged = starts_with(t1, Symbol::Minus);
            let end_r = if ranged {
                bit_number(t1.drop_first())
            } else {
                Ok(start)
            };
            match end_r {
                Err(e) => Err(e),
                Ok(end) => {
                    let t2 = if ranged {
                        after_one(t1.drop_first())
                    } else {
                        t1
                    };
                    match ident_result(t2) {
                        Err(e) => Err(e),
                        Ok((field, fspan)) => {
                            let t3 = after_one(t2);
                            match symbol_result(t3, Symbol::Colon) {
                                Err(e) => Err(e),
                                Ok(_) => {
                                    let t4 = after_one(t3);
                                    match ident_result(t4) {
                                        Err(e) => Err(e),
                                        Ok((tn, tspan)) => {
                                            let t5 = after_one(t4);
                                            match newline_result(t5) {
                                                Err(e) => Err(e),
                                                Ok(_) => match lookup_type_id_spec(m, tn, tspan) {
                                                    Err(e) => Err(e),
                                                    Ok((m1, fty)) => match lookup_spec(m1, fty) {
                                                        Err(e) => Err(e),
                                                        Ok(td) => match td.kind {
                                                            KindModel::Primitive(_)
                                                            | KindModel::Enum { .. } => if start > end {
                                                                Err(
                                                                    BuildErrorModel::InvalidBitRange {
                                                                        at: fspan,
                                                                        start,
                                                                        end,
                                                                    },
                                                                )
                                                            } else {
                                                                Ok(
                                                                    (
                                                                        m1,
                                                                        after_one(t5),
                                                                        (
                                                                            field,
                                                                            fty,
                                                                            BitRange { start, end },
                                                                        ),
                                                                    ),
                                                                )
                                                            },
                                                            _ => Err(
                                                                BuildErrorModel::BitfieldMemberTypeInvalid {
                                                                    field,
                                                                    at: fspan,
                                                                },
                                                            ),
                                                        },
                                                    },
                                                },
                                            }
                                        },
                                    }
                                },
                            }
                        },
                    }
                },
            }
        },
    }
}

/// `value => type` then the end of the line: a case or the default of a variant.
pub open spec fn variant_item_spec(m: TableModel, ts: Seq<TokenModel>) -> Step<(u64, TypeID)> {
    let (nr, k) = number_outcome(ts);
    let t1 = ts.skip(k as int);
    match nr {
        Err(e) => Err(e),
        Ok((v, _)) => if v < 0 {
            Err(BuildErrorModel::VariantValueNegative(cur_span(t1)))
        } else {
            match arrow_result(t1) {
                Err(e) => Err(e),
                Ok(_) => {
                    let t2 = after_one(t1);
                    match ident_result(t2) {
                        Err(e) => Err(e),
                        Ok((tn, tspan)) => match lookup_type_id_spec(m, tn, tspan) {
                            Err(e) => Err(e),
                            Ok((m1, ty)) => {
                                let t3 = after_one(t2);
                                match newline_result(t3) {
                                    Err(e) => Err(e),
                                    Ok(_) => Ok((m1, after_one(t3), (v as u64, ty))),
                                }
                            },
                        },
                    }
                },
            }
        },
    }
}


/// The symbol that opens the next body line: `-` for a member, `=` for a default.
pub open spec fn body_mark(ts: Seq<TokenModel>) -> Option<Symbol> {
    peek_symbol(ts, seq![Symbol::Minus, Symbol::Equals])
}

/// A body whose lines are `- name: type` members and that has no default (`kind` names
/// the declaration in the error for a default).
pub open spec fn named_body_spec(
    m: TableModel,
    ts: Seq<TokenModel>,
    acc: Seq<(Seq<char>, TypeID)>,
    kind: Seq<char>,
) -> Step<Seq<(Seq<char>, TypeID)>>
    decreases ts.len(),
{
    match body_mark(ts) {
        Some(Symbol::Minus) => match named_member_spec(m, ts.drop_first()) {
            Err(e) => Err(e),
            Ok((m1, t1, mem)) => {
                proof {
                    lemma_named_member_spent(m, ts.drop_first());
                }
                named_body_spec(m1, t1, acc.push(mem), kind)
            },
        },
        Some(Symbol::Equals) => Err(
            BuildErrorModel::UnexpectedDefault { kind, at: cur_span(ts.drop_first()) },
        ),
        _ => Ok((m, ts, acc)),
    }
}

/// The body of an enum: values, and defaults of which the last one counts.
pub open spec fn enum_body_spec(
    ts: Seq<TokenModel>,
    acc: Seq<(Seq<char>, i64)>,
    default: Option<(Seq<char>, i64)>,
) -> Result<(Seq<TokenModel>, Seq<(Seq<char>, i64)>, Option<(Seq<char>, i64)>), BuildErrorModel>
    decreases ts.len(),
{
    match body_mark(ts) {
        Some(Symbol::Minus) => match enum_item_spec(ts.drop_first()) {
            Err(e) => Err(e),
            Ok((t1, item)) => {
                proof {
                    lemma_enum_item_spent(ts.drop_first());
                }
                enum_body_spec(t1, acc.push(item), default)
            },
        },
        Some(Symbol::Equals) => match enum_item_spec(ts.drop_first()) {
            Err(e) => Err(e),
            Ok((t1, item)) => {
                proof {
                    lemma_enum_item_spent(ts.drop_first());
                }
                enum_body_spec(t1, acc, Some(item))
            },
        },
        _ => Ok((ts, acc, default)),
    }
}

/// The body of a bitfield: members and no default.
pub open spec fn bits_body_spec(
    m: TableModel,
    ts: Seq<TokenModel>,
    acc: Seq<(Seq<char>, TypeID, BitRange)>,
) -> Step<Seq<(Seq<char>, TypeID, BitRange)>>
    decreases ts.len(),
{
    match body_mark(ts) {
        Some(Symbol::Minus) => match bits_member_spec(m, ts.drop_first()) {
            Err(e) => Err(e),
            Ok((m1, t1, mem)) => {
                proof {
                    lemma_bits_member_spent(m, ts.drop_first());
                }
                bits_body_spec(m1, t1, acc.push(mem))
            },
        },
        Some(Symbol::Equals) => Err(
            BuildErrorModel::UnexpectedDefault { kind: "bits"@, at: cur_span(ts.drop_first()) },
        ),
        _ => Ok((m, ts, acc)),
    }
}

/// The body of a variant: cases, and defaults of which the last one counts.
pub open spec fn variant_body_spec(
    m: TableModel,
    ts: Seq<TokenModel>,
    acc: Seq<(u64, TypeID)>,
    default: Option<(u64, TypeID)>,
) -> Step<(Seq<(u64, TypeID)>, Option<(u64, TypeID)>)>
    decreases ts.len(),
{
    match body_mark(ts) {
        Some(Symbol::Minus) => match variant_item_spec(m, ts.drop_first()) {
            Err(e) => Err(e),
            Ok((m1, t1, item)) => {
                proof {
                    lemma_variant_item_spent(m, ts.drop_first());
                }
                variant_body_spec(m1, t1, acc.push(item), default)
            },
        },
        Some(Symbol::Equals) => match variant_item_spec(m, ts.drop_first()) {
            Err(e) => Err(e),
            Ok((m1, t1, item)) => {
                proof {
                    lemma_variant_item_spent(m, ts.drop_first());
                }
                variant_body_spec(m1, t1, acc, Some(item))
            },
        },
        _ => Ok((m, ts, (acc, default))),
    }
}

// ---------------------------------------------------------------------------
// What each step consumes
// ---------------------------------------------------------------------------
pub proof fn lemma_number_outcome(ts: Seq<TokenModel>)
    ensures
        number_outcome(ts).1 <= ts.len(),
        number_outcome(ts).0 is Ok ==> number_outcome(ts).1 >= 1,
{
}

pub proof fn lemma_array_tail(ts: Seq<TokenModel>, close: Symbol)
    ensures
        array_tail(ts, close) matches Ok((_, _, rest)) ==> rest.len() + 3 == ts.len(),
{
}

/// The facts each parsing step keeps: it consumes tokens, and it spends no more
/// identifiers than it consumes tokens.
pub open spec fn step_ok(m: TableModel, ts: Seq<TokenModel>, m2: TableModel, rest: Seq<TokenModel>, strict: bool) -> bool {
    &&& rest.len() <= ts.len()
    &&& strict ==> rest.len() < ts.len()
    &&& budget(m, ts) ==> budget(m2, rest) && m.last <= m2.last
}

pub proof fn lemma_inline_type(m: TableModel, ts: Seq<TokenModel>)
    ensures
        inline_type_spec(m, ts) matches Ok((m2, rest, id)) ==> step_ok(m, ts, m2, rest, true) && (
        budget(m, ts) ==> id.0 < m2.last),
{
    if starts_with(ts, Symbol::LBrace) {
        let t1 = ts.drop_first();
        if t1.len() > 0 {
            let tok = t1[0];
            let t2 = t1.drop_first();
            lemma_array_tail(t2, Symbol::RBrace);
            match tok.kind {
                TokKind::Number(n) => {
                    if let Ok((vn, vs, t5)) = array_tail(t2, Symbol::RBrace) {
                        if budget(m, ts) {
                            super::lemma_lookup_type_id(m, vn, vs);
                            if let Ok((m1, vt)) = lookup_type_id_spec(m, vn, vs) {
                                let at = span_union(tok.span, cur_span(t5));
                                super::lemma_anon_wf(
                                    m1,
                                    TypeModel {
                                        defined_at: at,
                                        kind: KindModel::DynamicArray(
                                            ArrayKind::Fixed { count: n, value_type: vt },
                                        ),
                                    },
                                );
                            }
                        }
                    }
                },
                TokKind::Identifier(name) => {
                    if budget(m, ts) {
                        super::lemma_lookup_type_id(m, name, tok.span);
                        if let Ok((m1, st)) = lookup_type_id_spec(m, name, tok.span) {
                            if let Ok((vn, vs, t5)) = array_tail(t2, Symbol::RBrace) {
                                super::lemma_lookup_type_id(m1, vn, vs);
                                if let Ok((m2, vt)) = lookup_type_id_spec(m1, vn, vs) {
                                    let at = span_union(tok.span, cur_span(t5));
                                    super::lemma_anon_wf(
                                        m2,
                                        TypeModel {
                                            defined_at: at,
                                            kind: KindModel::DynamicArray(
                                                ArrayKind::Dynamic { size_type: st, value_type: vt },
                                            ),
                                        },
                                    );
                                }
                            }
                        }
                    }
                },
                _ => {},
            }
        }
    } else if starts_with(ts, Symbol::LBracket) {
        let t1 = ts.drop_first();
        lemma_number_outcome(t1);
        let (nr, k) = number_outcome(t1);
        if let Ok((c, sp)) = nr {
            lemma_array_tail(t1.skip(k as int), Symbol::RBracket);
            if let Ok((vn, vs, t5)) = array_tail(t1.skip(k as int), Symbol::RBracket) {
                if budget(m, ts) {
                    super::lemma_lookup_type_id(m, vn, vs);
                    if let Ok((m1, vt)) = lookup_type_id_spec(m, vn, vs) {
                        super::lemma_anon_wf(
                            m1,
                            TypeModel {
                                defined_at: cur_span(t5),
                                kind: KindModel::FixedArray(
                                    ArrayKind::Fixed { count: c as u64, value_type: vt },
                                ),
                            },
                        );
                    }
                }
            }
        }
    } else {
        if let Ok((n, sp)) = ident_result(ts) {
            if budget(m, ts) {
                super::lemma_lookup_type_id(m, n, sp);
            }
        }
    }
}

pub proof fn lemma_named_member_spent(m: TableModel, ts: Seq<TokenModel>)
    ensures
        named_member_spec(m, ts) matches Ok((m2, rest, mem)) ==> step_ok(m, ts, m2, rest, true) && (
        budget(m, ts) ==> mem.1.0 < m2.last),
{
    if ident_result(ts) is Ok {
        let t1 = after_one(ts);
        if symbol_result(t1, Symbol::Colon) is Ok {
            lemma_inline_type(m, after_one(t1));
        }
    }
}

pub proof fn lemma_enum_item_spent(ts: Seq<TokenModel>)
    ensures
        enum_item_spec(ts) matches Ok((rest, _)) ==> rest.len() < ts.len(),
{
    if ident_result(ts) is Ok {
        let t1 = after_one(ts);
        if symbol_result(t1, Symbol::Equals) is Ok {
            lemma_number_outcome(after_one(t1));
        }
    }
}

pub proof fn lemma_bits_member_spent(m: TableModel, ts: Seq<TokenModel>)
    ensures
        bits_member_spec(m, ts) matches Ok((m2, rest, mem)) ==> step_ok(m, ts, m2, rest, true) && (
        budget(m, ts) ==> mem.1.0 < m2.last),
{
    if let Ok(start) = bit_number(ts) {
        let t1 = after_one(ts);
        let ranged = starts_with(t1, Symbol::Minus);
        let end_r = if ranged {
            bit_number(t1.drop_first())
        } else {
            Ok(start)
        };
        if let Ok(end) = end_r {
            let t2 = if ranged {
                after_one(t1.drop_first())
            } else {
                t1
            };
            if let Ok((field, fspan)) = ident_result(t2) {
                let t3 = after_one(t2);
                if symbol_result(t3, Symbol::Colon) is Ok {
                    let t4 = after_one(t3);
                    if let Ok((tn, tspan)) = ident_result(t4) {
                        if budget(m, ts) {
                            super::lemma_lookup_type_id(m, tn, tspan);
                        }
                    }
                }
            }
        }
    }
}

pub proof fn lemma_variant_item_spent(m: TableModel, ts: Seq<TokenModel>)
    ensures
        variant_item_spec(m, ts) matches Ok((m2, rest, item)) ==> step_ok(m, ts, m2, rest, true) && (
        budget(m, ts) ==> item.1.0 < m2.last),
{
    lemma_number_outcome(ts);
    let (nr, k) = number_outcome(ts);
    let t1 = ts.skip(k as int);
    if let Ok((v, _)) = nr {
        if v >= 0 && arrow_result(t1) is Ok {
            let t2 = after_one(t1);
            if let Ok((tn, tspan)) = ident_result(t2) {
                if budget(m, ts) {
                    super::lemma_lookup_type_id(m, tn, tspan);
                }
            }
        }
    }
}

pub proof fn lemma_named_body(
    m: TableModel,
    ts: Seq<TokenModel>,
    acc: Seq<(Seq<char>, TypeID)>,
    kind: Seq<char>,
)
    ensures
        named_body_spec(m, ts, acc, kind) matches Ok((m2, rest, _)) ==> step_ok(m, ts, m2, rest, false),
    decreases ts.len(),
{
    if body_mark(ts) == Some(Symbol::Minus) {
        lemma_named_member_spent(m, ts.drop_first());
        if let Ok((m1, t1, mem)) = named_member_spec(m, ts.drop_first()) {
            lemma_named_body(m1, t1, acc.push(mem), kind);
        }
    }
}

pub proof fn lemma_enum_body(
    ts: Seq<TokenModel>,
    acc: Seq<(Seq<char>, i64)>,
    default: Option<(Seq<char>, i64)>,
)
    ensures
        enum_body_spec(ts, acc, default) matches Ok((rest, _, _)) ==> rest.len() <= ts.len(),
    decreases ts.len(),
{
    if body_mark(ts) == Some(Symbol::Minus) || body_mark(ts) == Some(Symbol::Equals) {
        lemma_enum_item_spent(ts.drop_first());
        if let Ok((t1, item)) = enum_item_spec(ts.drop_first()) {
            lemma_enum_body(t1, acc.push(item), default);
            lemma_enum_body(t1, acc, Some(item));
        }
    }
}

pub proof fn lemma_bits_body(m: TableModel, ts: Seq<TokenModel>, acc: Seq<(Seq<char>, TypeID, BitRange)>)
    ensures
        bits_body_spec(m, ts, acc) matches Ok((m2, rest, _)) ==> step_ok(m, ts, m2, rest, false),
    decreases ts.len(),
{
    if body_mark(ts) == Some(Symbol::Minus) {
        lemma_bits_member_spent(m, ts.drop_first());
        if let Ok((m1, t1, mem)) = bits_member_spec(m, ts.drop_first()) {
            lemma_bits_body(m1, t1, acc.push(mem));
        }
    }
}

pub proof fn lemma_variant_body(
    m: TableModel,
    ts: Seq<TokenModel>,
    acc: Seq<(u64, TypeID)>,
    default: Option<(u64, TypeID)>,
)
    ensures
        variant_body_spec(m, ts, acc, default) matches Ok((m2, rest, _)) ==> step_ok(
            m,
            ts,
            m2,
            rest,
            false,
        ),
    decreases ts.len(),
{
    if body_mark(ts) == Some(Symbol::Minus) || body_mark(ts) == Some(Symbol::Equals) {
        lemma_variant_item_spent(m, ts.drop_first());
        if let Ok((m1, t1, item)) = variant_item_spec(m, ts.drop_first()) {
            lemma_variant_body(m1, t1, acc.push(item), default);
            lemma_variant_body(m1, t1, acc, Some(item));
        }
    }
}

// ---------------------------------------------------------------------------
// Declarations
// ---------------------------------------------------------------------------
pub open spec fn pack_spec(m: TableModel, ts: Seq<TokenModel>) -> Result<
    (TableModel, Seq<TokenModel>),
    BuildErrorModel,
> {
    let at = cur_span(ts);
    match decl_head_spec(m, ts) {
        Err(e) => Err(e),
        Ok((m1, t1, tid)) => match newline_result(t1) {
            Err(e) => Err(e),
            Ok(_) => match named_body_spec(m1, after_one(t1), Seq::empty(), "pack"@) {
                Err(e) => Err(e),
                Ok((m2, t2, ms)) => Ok(
                    (
                        define_spec(
                            m2,
                            tid,
                            TypeModel {
                                defined_at: span_union(at, cur_span(t2)),
                                kind: KindModel::Pack(ms),
                            },
                        ),
                        t2,
                    ),
                ),
            },
        },
    }
}

pub open spec fn seq_spec(m: TableModel, ts: Seq<TokenModel>) -> Result<
    (TableModel, Seq<TokenModel>),
    BuildErrorModel,
> {
    let at = cur_span(ts);
    match decl_head_spec(m, ts) {
        Err(e) => Err(e),
        Ok((m1, t1, tid)) => match newline_result(t1) {
            Err(e) => Err(e),
            Ok(_) => match named_body_spec(m1, after_one(t1), Seq::empty(), "sequence"@) {
                Err(e) => Err(e),
                Ok((m2, t2, ms)) => Ok(
                    (
                        define_spec(
                            m2,
                            tid,
                            TypeModel {
                                defined_at: span_union(at, cur_span(t2)),
                                kind: KindModel::Sequence(ms),
                            },
                        ),
                        t2,
                    ),
                ),
            },
        },
    }
}

pub open spec fn enum_spec(m: TableModel, ts: Seq<TokenModel>) -> Result<
    (TableModel, Seq<TokenModel>),
    BuildErrorModel,
> {
    let at = cur_span(ts);
    match decl_head_spec(m, ts) {
        Err(e) => Err(e),
        Ok((m1, t1, tid)) => match decl_head_sub_spec(m1, t1) {
            Err(e) => Err(e),
            Ok((m2, t2, sub)) => match newline_result(t2) {
                Err(e) => Err(e),
                Ok(_) => match enum_body_spec(after_one(t2), Seq::empty(), None) {
                    Err(e) => Err(e),
                    Ok((t3, ms, d)) => {
                        let at2 = span_union(at, cur_span(t3));
                        match lookup_spec(m2, sub) {
                            Err(e) => Err(e),
                            Ok(st) => match st.kind {
                                KindModel::Primitive(p) => if !is_integer_spec(p) {
                                    match name_span_spec(m2, tid) {
                                        Err(e) => Err(e),
                                        Ok((en, es)) => Err(BuildErrorModel::NonIntEnum(en, es, p)),
                                    }
                                } else {
                                    Ok(
                                        (
                                            define_spec(
                                                m2,
                                                tid,
                                                TypeModel {
                                                    defined_at: at2,
                                                    kind: KindModel::Enum {
                                                        ty: p,
                                                        members: ms,
                                                        default: d,
                                                    },
                                                },
                                            ),
                                            t3,
                                        ),
                                    )
                                },
                                _ => match name_span_spec(m2, tid) {
                                    Err(e) => Err(e),
                                    Ok((en, _)) => match name_span_spec(m2, sub) {
                                        Err(e) => Err(e),
                                        Ok((bn, bs)) => Err(
                                            BuildErrorModel::NonPrimitiveEnumBase(en, bn, bs),
                                        ),
                                    },
                                },
                            },
                        }
                    },
                },
            },
        },
    }
}

pub open spec fn nonint_bits_error(m: TableModel, tid: TypeID, sub: TypeID) -> BuildErrorModel {
    match name_span_spec(m, tid) {
        Err(e) => e,
        Ok((bn, bs)) => match name_span_spec(m, sub) {
            Err(e) => e,
            Ok((un, _)) => BuildErrorModel::NonIntBitfld(bn, bs, un),
        },
    }
}

pub open spec fn bits_spec(m: TableModel, ts: Seq<TokenModel>) -> Result<
    (TableModel, Seq<TokenModel>),
    BuildErrorModel,
> {
    let at = cur_span(ts);
    match decl_head_spec(m, ts) {
        Err(e) => Err(e),
        Ok((m1, t1, tid)) => match decl_head_sub_spec(m1, t1) {
            Err(e) => Err(e),
            Ok((m2, t2, sub)) => match newline_result(t2) {
                Err(e) => Err(e),
                Ok(_) => match bits_body_spec(m2, after_one(t2), Seq::empty()) {
                    Err(e) => Err(e),
                    Ok((m3, t3, ms)) => match lookup_spec(m3, sub) {
                        Err(e) => Err(e),
                        Ok(st) => match st.kind {
                            KindModel::Primitive(p) => if !is_integer_spec(p) {
                                Err(nonint_bits_error(m3, tid, sub))
                            } else {
                                Ok(
                                    (
                                        define_spec(
                                            m3,
                                            tid,
                                            TypeModel {
                                                defined_at: span_union(at, cur_span(t3)),
                                                kind: KindModel::Bitfld { ty: sub, members: ms },
                                            },
                                        ),
                                        t3,
                                    ),
                                )
                            },
                            _ => Err(nonint_bits_error(m3, tid, sub)),
                        },
                    },
                },
            },
        },
    }
}

pub open spec fn variant_spec(m: TableModel, ts: Seq<TokenModel>) -> Result<
    (TableModel, Seq<TokenModel>),
    BuildErrorModel,
> {
    let at = cur_span(ts);
    match decl_head_spec(m, ts) {
        Err(e) => Err(e),
        Ok((m1, t1, tid)) => match decl_head_sub_spec(m1, t1) {
            Err(e) => Err(e),
            Ok((m2, t2, sub)) => match newline_result(t2) {
                Err(e) => Err(e),
                Ok(_) => match variant_body_spec(m2, after_one(t2), Seq::empty(), None) {
                    Err(e) => Err(e),
                    Ok((m3, t3, (ms, d))) => match lookup_spec(m3, sub) {
                        Err(e) => Err(e),
                        Ok(st) => match st.kind {
                            KindModel::Primitive(p) => if !is_integer_spec(p) {
                                match name_span_spec(m3, tid) {
                                    Err(e) => Err(e),
                                    Ok((vn, vs)) => Err(BuildErrorModel::NonIntVariant(vn, vs, p)),
                                }
                            } else {
                                Ok(
                                    (
                                        define_spec(
                                            m3,
                                            tid,
                                            TypeModel {
                                                defined_at: span_union(at, cur_span(t3)),
                                                kind: KindModel::Variant {
                                                    ty: p,
                                                    members: ms,
                                                    default: d,
                                                },
                                            },
                                        ),
                                        t3,
                                    ),
                                )
                            },
                            _ => match name_span_spec(m3, tid) {
                                Err(e) => Err(e),
                                Ok((vn, _)) => match name_span_spec(m3, sub) {
                                    Err(e) => Err(e),
                                    Ok((bn, bs)) => Err(
                                        BuildErrorModel::NonPrimitiveVariantBase(vn, bn, bs),
                                    ),
                                },
                            },
                        },
                    },
                },
            },
        },
    }
}

/// The declaration that keyword `kw` opens, parsed from `ts`.
#[verifier::opaque]
pub open spec fn decl_spec(kw: Keyword, m: TableModel, ts: Seq<TokenModel>) -> Result<
    (TableModel, Seq<TokenModel>),
    BuildErrorModel,
> {
    match kw {
        Keyword::Pack => pack_spec(m, ts),
        Keyword::Enum => enum_spec(m, ts),
        Keyword::Bits => bits_spec(m, ts),
        Keyword::Variant => variant_spec(m, ts),
        _ => seq_spec(m, ts),
    }
}

pub proof fn lemma_decl_head(m: TableModel, ts: Seq<TokenModel>)
    ensures
        decl_head_spec(m, ts) matches Ok((m2, rest, id)) ==> step_ok(m, ts, m2, rest, true) && (
        budget(m, ts) ==> id.0 < m2.last),
{
    if let Ok((n, sp)) = ident_result(ts) {
        if budget(m, ts) {
            super::lemma_lookup_type_id(m, n, sp);
        }
    }
}

pub proof fn lemma_decl_head_sub(m: TableModel, ts: Seq<TokenModel>)
    ensures
        decl_head_sub_spec(m, ts) matches Ok((m2, rest, id)) ==> step_ok(m, ts, m2, rest, true) && (
        budget(m, ts) ==> id.0 < m2.last),
{
    if symbol_result(ts, Symbol::Colon) is Ok {
        let t1 = after_one(ts);
        if let Ok((n, sp)) = ident_result(t1) {
            if budget(m, ts) {
                super::lemma_lookup_type_id(m, n, sp);
            }
        }
    }
}

pub proof fn lemma_decl(kw: Keyword, m: TableModel, ts: Seq<TokenModel>)
    ensures
        decl_spec(kw, m, ts) matches Ok((m2, rest)) ==> step_ok(m, ts, m2, rest, false),
{
    reveal(decl_spec);
    let at = cur_span(ts);
    lemma_decl_head(m, ts);
    if let Ok((m1, t1, tid)) = decl_head_spec(m, ts) {
        match kw {
            Keyword::Pack | Keyword::Sequence | Keyword::Alias | Keyword::Use | Keyword::As => {
                if newline_result(t1) is Ok {
                    let kind = if kw == Keyword::Pack {
                        "pack"@
                    } else {
                        "sequence"@
                    };
                    lemma_named_body(m1, after_one(t1), Seq::empty(), kind);
                    if let Ok((m2, t2, ms)) = named_body_spec(m1, after_one(t1), Seq::empty(), kind) {
                        if budget(m, ts) {
                            super::lemma_define_wf(
                                m2,
                                tid,
                                TypeModel {
                                    defined_at: span_union(at, cur_span(t2)),
                                    kind: if kw == Keyword::Pack {
                                        KindModel::Pack(ms)
                                    } else {
                                        KindModel::Sequence(ms)
                                    },
                                },
                            );
                        }
                    }
                }
            },
            Keyword::Enum => {
                lemma_decl_head_sub(m1, t1);
                if let Ok((m2, t2, sub)) = decl_head_sub_spec(m1, t1) {
                    if newline_result(t2) is Ok {
                        lemma_enum_body(after_one(t2), Seq::empty(), None);
                        if let Ok((t3, ms, d)) = enum_body_spec(after_one(t2), Seq::empty(), None) {
                            if let Ok(st) = lookup_spec(m2, sub) {
                                if let KindModel::Primitive(p) = st.kind {
                                    if budget(m, ts) {
                                        super::lemma_define_wf(
                                            m2,
                                            tid,
                                            TypeModel {
                                                defined_at: span_union(at, cur_span(t3)),
                                                kind: KindModel::Enum { ty: p, members: ms, default: d },
                                            },
                                        );
                                    }
                                }
                            }
                        }
                    }
                }
            },
            Keyword::Bits => {
                lemma_decl_head_sub(m1, t1);
                if let Ok((m2, t2, sub)) = decl_head_sub_spec(m1, t1) {
                    if newline_result(t2) is Ok {
                        lemma_bits_body(m2, after_one(t2), Seq::empty());
                        if let Ok((m3, t3, ms)) = bits_body_spec(m2, after_one(t2), Seq::empty()) {
                            if budget(m, ts) {
                                super::lemma_define_wf(
                                    m3,
                                    tid,
                                    TypeModel {
                                        defined_at: span_union(at, cur_span(t3)),
                                        kind: KindModel::Bitfld { ty: sub, members: ms },
                                    },
                                );
                            }
                        }
                    }
                }
            },
            Keyword::Variant => {
                lemma_decl_head_sub(m1, t1);
                if let Ok((m2, t2, sub)) = decl_head_sub_spec(m1, t1) {
                    if newline_result(t2) is Ok {
                        lemma_variant_body(m2, after_one(t2), Seq::empty(), None);
                        if let Ok((m3, t3, (ms, d))) = variant_body_spec(
                            m2,
                            after_one(t2),
                            Seq::empty(),
                            None,
                        ) {
                            if let Ok(st) = lookup_spec(m3, sub) {
                                if let KindModel::Primitive(p) = st.kind {
                                    if budget(m, ts) {
                                        super::lemma_define_wf(
                                            m3,
                                            tid,
                                            TypeModel {
                                                defined_at: span_union(at, cur_span(t3)),
                                                kind: KindModel::Variant {
                                                    ty: p,
                                                    members: ms,
                                                    default: d,
                                                },
                                            },
                                        );
                                    }
                                }
                            }
                        }
                    }
                }
            },
        }
    }
}

/// How building a module ends: with the table, with an error, or at a keyword whose
/// declarations are not supported yet (`alias`, `use`, `as`).
pub enum Outcome {
    Built(TableModel),
    Failed(BuildErrorModel),
    Unsupported(Keyword, Span),
}

pub open spec fn is_supported(kw: Keyword) -> bool {
    !(kw == Keyword::Alias || kw == Keyword::Use || kw == Keyword::As)
}

pub proof fn lemma_scan_kw(ts: Seq<TokenModel>)
    ensures
        scan_kw(ts).1 <= ts.len(),
        scan_kw(ts).0 is Some ==> scan_kw(ts).1 >= 1,
    decreases ts.len(),
{
    if ts.len() > 0 {
        lemma_scan_kw(ts.drop_first());
    }
}

/// Declarations one after another until a token other than a keyword or a newline.
pub open spec fn decls_spec(m: TableModel, ts: Seq<TokenModel>) -> Outcome
    decreases ts.len(),
{
    let (k, n) = scan_kw(ts);
    match k {
        None => Outcome::Built(m),
        Some((kw, sp)) => if !is_supported(kw) {
            Outcome::Unsupported(kw, sp)
        } else {
            proof {
                lemma_scan_kw(ts);
                lemma_decl(kw, m, ts.skip(n as int));
            }
            match decl_spec(kw, m, ts.skip(n as int)) {
                Err(e) => Outcome::Failed(e),
                Ok((m2, t2)) => decls_spec(m2, t2),
            }
        },
    }
}

/// Building a module from source text: lexing, the declarations, then the rules.
pub open spec fn build_spec(src: Seq<char>) -> Outcome {
    match lex_spec(src) {
        Err(e) => Outcome::Failed(BuildErrorModel::Lex(e)),
        Ok(ts) => match decls_spec(builtin_table(), ts) {
            Outcome::Built(m) => match validate_spec(m) {
                Some(e) => Outcome::Failed(e),
                None => Outcome::Built(m),
            },
            other => other,
        },
    }
}

// ---------------------------------------------------------------------------
// The parser
// ---------------------------------------------------------------------------
fn parse_decl_head(module: &mut PartialModule, reader: &mut TokenReader) -> (r: Result<TypeID, ModuleBuildError>)
    requires
        budget(old(module).table(), old(reader)@),
        ensures
            final(module).name_model() == old(module).name_model(),
            match (r, decl_head_spec(old(module).table(), old(reader)@)) {
                (Ok(x), Ok((m2, t2, y))) => final(module).table() == m2 && final(reader)@ == t2 && x == y,
                (Err(e), Err(f)) => e@ == f,
                _ => false,
            },
{
    let (ident, span) = reader.demand_identifier()?;
    module.install_type_id(ident.as_str(), &span)
}

fn parse_decl_head_sub(module: &mut PartialModule, reader: &mut TokenReader) -> (r: Result<TypeID, ModuleBuildError>)
    requires
        budget(old(module).table(), old(reader)@),
        ensures
            final(module).name_model() == old(module).name_model(),
            match (r, decl_head_sub_spec(old(module).table(), old(reader)@)) {
                (Ok(x), Ok((m2, t2, y))) => final(module).table() == m2 && final(reader)@ == t2 && x == y,
                (Err(e), Err(f)) => e@ == f,
                _ => false,
            },
{
    reader.demand_symbol(Symbol::Colon)?;
    let (ident, span) = reader.demand_identifier()?;
    module.lookup_type_id(ident.as_str(), &span)
}

/// `* M }` or `* M ]`.
fn parse_array_tail(reader: &mut TokenReader, close: Symbol) -> (r: Result<(String, Span), ModuleBuildError>)
    ensures
        match (r, array_tail(old(reader)@, close)) {
            (Ok((n, sp)), Ok((vn, vs, t5))) => n@ == vn && sp == vs && final(reader)@ == t5,
            (Err(e), Err(f)) => e@ == f,
            _ => false,
        },
{
    reader.demand_symbol(Symbol::Asterisk)?;
    let (val_name, val_span) = reader.demand_identifier()?;
    reader.demand_symbol(close)?;
    Ok((val_name, val_span))
}

fn parse_inline_type(module: &mut PartialModule, reader: &mut TokenReader) -> (r: Result<TypeID, ModuleBuildError>)
    requires
        budget(old(module).table(), old(reader)@),
        ensures
            final(module).name_model() == old(module).name_model(),
            match (r, inline_type_spec(old(module).table(), old(reader)@)) {
                (Ok(x), Ok((m2, t2, y))) => final(module).table() == m2 && final(reader)@ == t2 && x == y,
                (Err(e), Err(f)) => e@ == f,
                _ => false,
            },
{
    let ghost m = module.table();
    let ghost ts = reader@;
    proof {
        lemma_array_tail(ts.drop_first().drop_first(), Symbol::RBrace);
        lemma_number_outcome(ts.drop_first());
    }
    let lbrace = reader.request_symbols(&[Symbol::LBrace]);
    if lbrace.is_some() {
        reader.demand_symbol(Symbol::LBrace)?;
        let token = reader.demand_next()?;
        let tspan = token.span;
        match token.kind {
            TokenKind::Number(n) => {
                let (val_name, val_span) = parse_array_tail(reader, Symbol::RBrace)?;
                let value_type = module.lookup_type_id(val_name.as_str(), &val_span)?;
                let cur = reader.current_span();
                let at = tspan.union(&cur);
                let tid = module.alloc_anon_type(
                    Type {
                        defined_at: at,
                        kind: TypeKind::DynamicArray(ArrayKind::Fixed { count: n, value_type }),
                    },
                );
                Ok(tid)
            },
            TokenKind::Identifier(name) => {
                let size_type = module.lookup_type_id(name.as_str(), &tspan)?;
                let (val_name, val_span) = parse_array_tail(reader, Symbol::RBrace)?;
                let value_type = module.lookup_type_id(val_name.as_str(), &val_span)?;
                let cur = reader.current_span();
                let at = tspan.union(&cur);
                let tid = module.alloc_anon_type(
                    Type {
                        defined_at: at,
                        kind: TypeKind::DynamicArray(ArrayKind::Dynamic { size_type, value_type }),
                    },
                );
                Ok(tid)
            },
            other => Err(reader.make_unexpected("number or identifier", Token { kind: other, span: tspan })),
        }
    } else {
        let lbracket = reader.request_symbols(&[Symbol::LBracket]);
        if lbracket.is_some() {
            reader.demand_symbol(Symbol::LBracket)?;
            let (count_i64, sp) = reader.demand_number()?;
            if count_i64 < 0 {
                return Err(ModuleBuildError::ArrayCountNotPositive { i_m: "[I * M]", at: sp });
            }
            let count = count_i64 as u64;
            proof {
                lemma_array_tail(reader@, Symbol::RBracket);
            }
            let (val_name, val_span) = parse_array_tail(reader, Symbol::RBracket)?;
            let value_type = module.lookup_type_id(val_name.as_str(), &val_span)?;
            let at = reader.current_span();
            let tid = module.alloc_anon_type(
                Type { defined_at: at, kind: TypeKind::FixedArray(ArrayKind::Fixed { count, value_type }) },
            );
            Ok(tid)
        } else {
            let (name, span) = reader.demand_identifier()?;
            module.lookup_type_id(name.as_str(), &span)
        }
    }
}

fn parse_named_member(module: &mut PartialModule, reader: &mut TokenReader) -> (r: Result<
    (String, TypeID),
    ModuleBuildError,
>)
    requires
        budget(old(module).table(), old(reader)@),
    ensures
        final(module).name_model() == old(module).name_model(),
        match (r, named_member_spec(old(module).table(), old(reader)@)) {
            (Ok(x), Ok((m2, t2, y))) => final(module).table() == m2 && final(reader)@ == t2 && (x.0@, x.1) == y,
            (Err(e), Err(f)) => e@ == f,
            _ => false,
        },
{
    proof {
        lemma_inline_type(module.table(), reader@.drop_first().drop_first());
    }
    let mem_name = reader.demand_identifier()?;
    reader.demand_symbol(Symbol::Colon)?;
    let mem_type = parse_inline_type(module, reader)?;
    reader.demand_newline()?;
    Ok((mem_name.0, mem_type))
}

/// A body of `- name: type` members; a default is an error (`kind` names the
/// declaration in it).
fn parse_named_body(module: &mut PartialModule, reader: &mut TokenReader, kind: &'static str) -> (r:
    Result<Vec<(String, TypeID)>, ModuleBuildError>)
    requires
        budget(old(module).table(), old(reader)@),
    ensures
        final(module).name_model() == old(module).name_model(),
        match (r, named_body_spec(old(module).table(), old(reader)@, Seq::empty(), kind@)) {
            (Ok(x), Ok((m2, t2, y))) => final(module).table() == m2 && final(reader)@ == t2 && super::named_ids(x@) == y,
            (Err(e), Err(f)) => e@ == f,
            _ => false,
        },
{
    let ghost m0 = module.table();
    let ghost ts0 = reader@;
    let mut members: Vec<(String, TypeID)> = Vec::new();
    assert(super::named_ids(members@) =~= Seq::empty());
    loop
        invariant
            budget(module.table(), reader@),
            module.name_model() == old(module).name_model(),
            m0 == old(module).table(),
            ts0 == old(reader)@,
            named_body_spec(m0, ts0, Seq::empty(), kind@) == named_body_spec(
                module.table(),
                reader@,
                super::named_ids(members@),
                kind@,
            ),
        ensures
            module.name_model() == old(module).name_model(),
            named_body_spec(m0, ts0, Seq::empty(), kind@) == Ok::<
                (TableModel, Seq<TokenModel>, Seq<(Seq<char>, TypeID)>),
                BuildErrorModel,
            >((module.table(), reader@, super::named_ids(members@))),
        decreases reader@.len(),
    {
        let sym = reader.request_symbols(&[Symbol::Minus, Symbol::Equals]);
        match sym {
            Some(Symbol::Minus) => {
                reader.demand_symbol(Symbol::Minus)?;
                proof {
                    lemma_named_member_spent(module.table(), reader@);
                }
                let mem = parse_named_member(module, reader)?;
                let ghost before = members@;
                members.push(mem);
                assert(super::named_ids(members@) =~= super::named_ids(before).push((mem.0@, mem.1)));
            },
            Some(Symbol::Equals) => {
                reader.demand_symbol(Symbol::Equals)?;
                let at = reader.current_span();
                return Err(ModuleBuildError::UnexpectedDefault { kind, at });
            },
            _ => {
                break;
            },
        }
    }
    Ok(members)
}

fn parse_enum_item(reader: &mut TokenReader) -> (r: Result<(String, i64), ModuleBuildError>)
    ensures
        match (r, enum_item_spec(old(reader)@)) {
            (Ok(x), Ok((t2, y))) => final(reader)@ == t2 && (x.0@, x.1) == y,
            (Err(e), Err(f)) => e@ == f,
            _ => false,
        },
{
    let mem_name = reader.demand_identifier()?;
    reader.demand_symbol(Symbol::Equals)?;
    let mem_value: i64 = match reader.demand_number() {
        Ok(v) => v.0,
        Err(_) => return Err(ModuleBuildError::EnumValueNotInteger(reader.current_span())),
    };
    reader.demand_newline()?;
    Ok((mem_name.0, mem_value))
}

fn parse_enum_body(reader: &mut TokenReader) -> (r: Result<
    (Vec<(String, i64)>, Option<(String, i64)>),
    ModuleBuildError,
>)
    ensures
        match (r, enum_body_spec(old(reader)@, Seq::empty(), None)) {
            (Ok(x), Ok((t2, ms, d))) => final(reader)@ == t2 && super::named_values(x.0@) == ms
                && match x.1 {
                Some(v) => d == Some((v.0@, v.1)),
                None => d is None,
            },
            (Err(e), Err(f)) => e@ == f,
            _ => false,
        },
{
    let ghost ts0 = reader@;
    let mut members: Vec<(String, i64)> = Vec::new();
    let mut default: Option<(String, i64)> = None;
    assert(super::named_values(members@) =~= Seq::empty());
    loop
        invariant
            ts0 == old(reader)@,
            enum_body_spec(ts0, Seq::empty(), None) == enum_body_spec(
                reader@,
                super::named_values(members@),
                match default {
                    Some(v) => Some((v.0@, v.1)),
                    None => None,
                },
            ),
        ensures
            enum_body_spec(ts0, Seq::empty(), None) == Ok::<
                (Seq<TokenModel>, Seq<(Seq<char>, i64)>, Option<(Seq<char>, i64)>),
                BuildErrorModel,
            >(
                (
                    reader@,
                    super::named_values(members@),
                    match default {
                        Some(v) => Some((v.0@, v.1)),
                        None => None,
                    },
                ),
            ),
        decreases reader@.len(),
    {
        let sym = reader.request_symbols(&[Symbol::Minus, Symbol::Equals]);
        match sym {
            Some(Symbol::Minus) => {
                reader.demand_symbol(Symbol::Minus)?;
                proof {
                    lemma_enum_item_spent(reader@);
                }
                let item = parse_enum_item(reader)?;
                let ghost before = members@;
                members.push(item);
                assert(super::named_values(members@) =~= super::named_values(before).push(
                    (item.0@, item.1),
                ));
            },
            Some(Symbol::Equals) => {
                reader.demand_symbol(Symbol::Equals)?;
                proof {
                    lemma_enum_item_spent(reader@);
                }
                let item = parse_enum_item(reader)?;
                default = Some(item);
            },
            _ => {
                break;
            },
        }
    }
    Ok((members, default))
}

/// A bit position: a number token cut to 32 bits.
fn parse_bit_number(reader: &mut TokenReader) -> (r: Result<u32, ModuleBuildError>)
    ensures
        final(reader)@ == after_one(old(reader)@),
        match (r, bit_number(old(reader)@)) {
            (Ok(x), Ok(y)) => x == y,
            (Err(e), Err(f)) => e@ == f,
            _ => false,
        },
{
    let token = reader.demand_next()?;
    match token.kind {
        TokenKind::Number(n) => Ok(n as u32),
        _ => Err(reader.make_unexpected("number", token)),
    }
}

fn parse_bits_member(module: &mut PartialModule, reader: &mut TokenReader) -> (r: Result<
    (String, TypeID, BitRange),
    ModuleBuildError,
>)
    requires
        budget(old(module).table(), old(reader)@),
    ensures
        final(module).name_model() == old(module).name_model(),
        match (r, bits_member_spec(old(module).table(), old(reader)@)) {
            (Ok(x), Ok((m2, t2, y))) => final(module).table() == m2 && final(reader)@ == t2 && (x.0@, x.1, x.2) == y,
            (Err(e), Err(f)) => e@ == f,
            _ => false,
        },
{
    let start = parse_bit_number(reader)?;
    let mut end: u32 = start;
    let minus = reader.request_symbols(&[Symbol::Minus]);
    if matches!(minus, Some(Symbol::Minus)) {
        reader.demand_symbol(Symbol::Minus)?;
        end = parse_bit_number(reader)?;
    }
    let (field_name, field_span) = reader.demand_identifier()?;
    reader.demand_symbol(Symbol::Colon)?;
    let (ty_name, ty_span) = reader.demand_identifier()?;
    reader.demand_newline()?;
    let field_ty = module.lookup_type_id(ty_name.as_str(), &ty_span)?;
    let tdef = module.lookup(field_ty)?;
    match tdef.kind {
        TypeKind::Primitive(_) | TypeKind::Enum(_) => {},
        _ => {
            return Err(ModuleBuildError::BitfieldMemberTypeInvalid { field: field_name, at: field_span });
        },
    }
    if start > end {
        return Err(ModuleBuildError::InvalidBitRange { at: field_span, start, end });
    }
    Ok((field_name, field_ty, BitRange { start, end }))
}

fn parse_bits_body(module: &mut PartialModule, reader: &mut TokenReader) -> (r: Result<
    Vec<(String, TypeID, BitRange)>,
    ModuleBuildError,
>)
    requires
        budget(old(module).table(), old(reader)@),
    ensures
        final(module).name_model() == old(module).name_model(),
        match (r, bits_body_spec(old(module).table(), old(reader)@, Seq::empty())) {
            (Ok(x), Ok((m2, t2, y))) => final(module).table() == m2 && final(reader)@ == t2 && super::named_ranges(x@) == y,
            (Err(e), Err(f)) => e@ == f,
            _ => false,
        },
{
    let ghost m0 = module.table();
    let ghost ts0 = reader@;
    let mut members: Vec<(String, TypeID, BitRange)> = Vec::new();
    assert(super::named_ranges(members@) =~= Seq::empty());
    loop
        invariant
            budget(module.table(), reader@),
            module.name_model() == old(module).name_model(),
            m0 == old(module).table(),
            ts0 == old(reader)@,
            bits_body_spec(m0, ts0, Seq::empty()) == bits_body_spec(
                module.table(),
                reader@,
                super::named_ranges(members@),
            ),
        ensures
            module.name_model() == old(module).name_model(),
            bits_body_spec(m0, ts0, Seq::empty()) == Ok::<
                (TableModel, Seq<TokenModel>, Seq<(Seq<char>, TypeID, BitRange)>),
                BuildErrorModel,
            >((module.table(), reader@, super::named_ranges(members@))),
        decreases reader@.len(),
    {
        let sym = reader.request_symbols(&[Symbol::Minus, Symbol::Equals]);
        match sym {
            Some(Symbol::Minus) => {
                reader.demand_symbol(Symbol::Minus)?;
                proof {
                    lemma_bits_member_spent(module.table(), reader@);
                }
                let mem = parse_bits_member(module, reader)?;
                let ghost before = members@;
                members.push(mem);
                assert(super::named_ranges(members@) =~= super::named_ranges(before).push(
                    (mem.0@, mem.1, mem.2),
                ));
            },
            Some(Symbol::Equals) => {
                reader.demand_symbol(Symbol::Equals)?;
                let at = reader.current_span();
                return Err(ModuleBuildError::UnexpectedDefault { kind: "bits", at });
            },
            _ => {
                break;
            },
        }
    }
    Ok(members)
}

fn parse_variant_item(module: &mut PartialModule, reader: &mut TokenReader) -> (r: Result<
    (u64, TypeID),
    ModuleBuildError,
>)
    requires
        budget(old(module).table(), old(reader)@),
    ensures
        final(module).name_model() == old(module).name_model(),
        match (r, variant_item_spec(old(module).table(), old(reader)@)) {
            (Ok(x), Ok((m2, t2, y))) => final(module).table() == m2 && final(reader)@ == t2 && x == y,
            (Err(e), Err(f)) => e@ == f,
            _ => false,
        },
{
    proof {
        lemma_number_outcome(reader@);
    }
    let (val_i64, _) = reader.demand_number()?;
    if val_i64 < 0 {
        return Err(ModuleBuildError::VariantValueNegative(reader.current_span()));
    }
    let val = val_i64 as u64;
    reader.demand_fat_arrow()?;
    let (case_ty_name, case_ty_span) = reader.demand_identifier()?;
    let ty = module.lookup_type_id(case_ty_name.as_str(), &case_ty_span)?;
    reader.demand_newline()?;
    Ok((val, ty))
}

fn parse_variant_body(module: &mut PartialModule, reader: &mut TokenReader) -> (r: Result<
    (Vec<(u64, TypeID)>, Option<(u64, TypeID)>),
    ModuleBuildError,
>)
    requires
        budget(old(module).table(), old(reader)@),
    ensures
        final(module).name_model() == old(module).name_model(),
        match (r, variant_body_spec(old(module).table(), old(reader)@, Seq::empty(), None)) {
            (Ok(x), Ok((m2, t2, y))) => final(module).table() == m2 && final(reader)@ == t2 && (x.0@, x.1) == y,
            (Err(e), Err(f)) => e@ == f,
            _ => false,
        },
{
    let ghost m0 = module.table();
    let ghost ts0 = reader@;
    let mut members: Vec<(u64, TypeID)> = Vec::new();
    let mut default: Option<(u64, TypeID)> = None;
    loop
        invariant
            budget(module.table(), reader@),
            module.name_model() == old(module).name_model(),
            m0 == old(module).table(),
            ts0 == old(reader)@,
            variant_body_spec(m0, ts0, Seq::empty(), None) == variant_body_spec(
                module.table(),
                reader@,
                members@,
                default,
            ),
        ensures
            module.name_model() == old(module).name_model(),
            variant_body_spec(m0, ts0, Seq::empty(), None) == Ok::<
                (TableModel, Seq<TokenModel>, (Seq<(u64, TypeID)>, Option<(u64, TypeID)>)),
                BuildErrorModel,
            >((module.table(), reader@, (members@, default))),
        decreases reader@.len(),
    {
        let sym = reader.request_symbols(&[Symbol::Minus, Symbol::Equals]);
        match sym {
            Some(Symbol::Minus) => {
                reader.demand_symbol(Symbol::Minus)?;
                proof {
                    lemma_variant_item_spent(module.table(), reader@);
                }
                let item = parse_variant_item(module, reader)?;
                members.push(item);
            },
            Some(Symbol::Equals) => {
                reader.demand_symbol(Symbol::Equals)?;
                proof {
                    lemma_variant_item_spent(module.table(), reader@);
                }
                let item = parse_variant_item(module, reader)?;
                default = Some(item);
            },
            _ => {
                break;
            },
        }
    }
    Ok((members, default))
}

fn parse_pack(module: &mut PartialModule, reader: &mut TokenReader) -> (r: Result<(), ModuleBuildError>)
    requires
        budget(old(module).table(), old(reader)@),
    ensures
        final(module).name_model() == old(module).name_model(),
        match (r, pack_spec(old(module).table(), old(reader)@)) {
            (Ok(_), Ok((m2, t2))) => final(module).table() == m2 && final(reader)@ == t2,
            (Err(e), Err(f)) => e@ == f,
            _ => false,
        },
{
    proof {
        lemma_decl_head(module.table(), reader@);
    }
    let at = reader.current_span();
    let tid = parse_decl_head(module, reader)?;
    reader.demand_newline()?;
    proof {
        lemma_named_body(module.table(), reader@, Seq::empty(), "pack"@);
    }
    let members = parse_named_body(module, reader, "pack")?;
    let cur = reader.current_span();
    let at = at.union(&cur);
    module.define(tid, Type { defined_at: at, kind: TypeKind::Pack(super::Pack { members }) });
    Ok(())
}

fn parse_seq(module: &mut PartialModule, reader: &mut TokenReader) -> (r: Result<(), ModuleBuildError>)
    requires
        budget(old(module).table(), old(reader)@),
    ensures
        final(module).name_model() == old(module).name_model(),
        match (r, seq_spec(old(module).table(), old(reader)@)) {
            (Ok(_), Ok((m2, t2))) => final(module).table() == m2 && final(reader)@ == t2,
            (Err(e), Err(f)) => e@ == f,
            _ => false,
        },
{
    proof {
        lemma_decl_head(module.table(), reader@);
    }
    let at = reader.current_span();
    let tid = parse_decl_head(module, reader)?;
    reader.demand_newline()?;
    proof {
        lemma_named_body(module.table(), reader@, Seq::empty(), "sequence"@);
    }
    let members = parse_named_body(module, reader, "sequence")?;
    let cur = reader.current_span();
    let at = at.union(&cur);
    module.define(tid, Type { defined_at: at, kind: TypeKind::Sequence(super::Sequence { members }) });
    Ok(())
}

fn parse_enum(module: &mut PartialModule, reader: &mut TokenReader) -> (r: Result<(), ModuleBuildError>)
    requires
        budget(old(module).table(), old(reader)@),
    ensures
        final(module).name_model() == old(module).name_model(),
        match (r, enum_spec(old(module).table(), old(reader)@)) {
            (Ok(_), Ok((m2, t2))) => final(module).table() == m2 && final(reader)@ == t2,
            (Err(e), Err(f)) => e@ == f,
            _ => false,
        },
{
    proof {
        lemma_decl_head(module.table(), reader@);
    }
    let at = reader.current_span();
    let tid = parse_decl_head(module, reader)?;
    proof {
        lemma_decl_head_sub(module.table(), reader@);
    }
    let sub_tid = parse_decl_head_sub(module, reader)?;
    reader.demand_newline()?;
    let (members, default) = parse_enum_body(reader)?;
    let cur = reader.current_span();
    let at = at.union(&cur);
    let sub_type = module.lookup(sub_tid)?;
    let base = match &sub_type.kind {
        TypeKind::Primitive(p) => Some(*p),
        _ => None,
    };
    match base {
        Some(p) => {
            if !p.is_integer() {
                let (ename, espan) = module.name_and_span_for_tid(tid)?;
                return Err(ModuleBuildError::NonIntEnum(ename.clone(), espan, p));
            }
            module.define(
                tid,
                Type { defined_at: at, kind: TypeKind::Enum(super::Enum { ty: p, members, default }) },
            );
        },
        None => {
            let (ename, _espan) = module.name_and_span_for_tid(tid)?;
            let (bname, bspan) = module.name_and_span_for_tid(sub_tid)?;
            return Err(ModuleBuildError::NonPrimitiveEnumBase(ename.clone(), bname.clone(), bspan));
        },
    }
    Ok(())
}

fn nonint_bits(module: &PartialModule, tid: TypeID, sub: TypeID) -> (e: ModuleBuildError)
    ensures
        e@ == nonint_bits_error(module.table(), tid, sub),
{
    let bit_type = match module.name_and_span_for_tid(tid) {
        Ok(x) => x,
        Err(e) => return e,
    };
    let underlying = match module.name_and_span_for_tid(sub) {
        Ok(x) => x,
        Err(e) => return e,
    };
    ModuleBuildError::NonIntBitfld(bit_type.0.clone(), bit_type.1, underlying.0.clone())
}

fn parse_bits(module: &mut PartialModule, reader: &mut TokenReader) -> (r: Result<(), ModuleBuildError>)
    requires
        budget(old(module).table(), old(reader)@),
    ensures
        final(module).name_model() == old(module).name_model(),
        match (r, bits_spec(old(module).table(), old(reader)@)) {
            (Ok(_), Ok((m2, t2))) => final(module).table() == m2 && final(reader)@ == t2,
            (Err(e), Err(f)) => e@ == f,
            _ => false,
        },
{
    proof {
        lemma_decl_head(module.table(), reader@);
    }
    let at_start = reader.current_span();
    let tid = parse_decl_head(module, reader)?;
    proof {
        lemma_decl_head_sub(module.table(), reader@);
    }
    let sub_tid = parse_decl_head_sub(module, reader)?;
    reader.demand_newline()?;
    proof {
        lemma_bits_body(module.table(), reader@, Seq::empty());
    }
    let members = parse_bits_body(module, reader)?;
    let sub_type = module.lookup(sub_tid)?;
    let base = match &sub_type.kind {
        TypeKind::Primitive(p) => Some(*p),
        _ => None,
    };
    match base {
        Some(p) => {
            if !p.is_integer() {
                return Err(nonint_bits(module, tid, sub_tid));
            }
        },
        None => {
            return Err(nonint_bits(module, tid, sub_tid));
        },
    }
    let cur = reader.current_span();
    let at = at_start.union(&cur);
    module.define(tid, Type { defined_at: at, kind: TypeKind::Bitfld(super::Bitfld { ty: sub_tid, members }) });
    Ok(())
}

fn parse_variant(module: &mut PartialModule, reader: &mut TokenReader) -> (r: Result<(), ModuleBuildError>)
    requires
        budget(old(module).table(), old(reader)@),
    ensures
        final(module).name_model() == old(module).name_model(),
        match (r, variant_spec(old(module).table(), old(reader)@)) {
            (Ok(_), Ok((m2, t2))) => final(module).table() == m2 && final(reader)@ == t2,
            (Err(e), Err(f)) => e@ == f,
            _ => false,
        },
{
    proof {
        lemma_decl_head(module.table(), reader@);
    }
    let at_start = reader.current_span();
    let tid = parse_decl_head(module, reader)?;
    proof {
        lemma_decl_head_sub(module.table(), reader@);
    }
    let sub_tid = parse_decl_head_sub(module, reader)?;
    reader.demand_newline()?;
    proof {
        lemma_variant_body(module.table(), reader@, Seq::empty(), None);
    }
    let (members, default) = parse_variant_body(module, reader)?;
    let sub_type = module.lookup(sub_tid)?;
    let base = match &sub_type.kind {
        TypeKind::Primitive(p) => Some(*p),
        _ => None,
    };
    match base {
        Some(p) => {
            if !p.is_integer() {
                let (vname, vspan) = module.name_and_span_for_tid(tid)?;
                return Err(ModuleBuildError::NonIntVariant(vname.clone(), vspan, p));
            }
            let cur = reader.current_span();
            let at = at_start.union(&cur);
            module.define(
                tid,
                Type { defined_at: at, kind: TypeKind::Variant(super::Variant { ty: p, members, default }) },
            );
        },
        None => {
            let (vname, _vspan) = module.name_and_span_for_tid(tid)?;
            let (bname, bspan) = module.name_and_span_for_tid(sub_tid)?;
            return Err(ModuleBuildError::NonPrimitiveVariantBase(vname.clone(), bname.clone(), bspan));
        },
    }
    Ok(())
}

fn parse_decl(kw: Keyword, module: &mut PartialModule, reader: &mut TokenReader) -> (r: Result<
    (),
    ModuleBuildError,
>)
    requires
        is_supported(kw),
        budget(old(module).table(), old(reader)@),
    ensures
        final(module).name_model() == old(module).name_model(),
        match (r, decl_spec(kw, old(module).table(), old(reader)@)) {
            (Ok(_), Ok((m2, t2))) => final(module).table() == m2 && final(reader)@ == t2,
            (Err(e), Err(f)) => e@ == f,
            _ => false,
        },
{
    proof {
        reveal(decl_spec);
    }
    match kw {
        Keyword::Pack => parse_pack(module, reader),
        Keyword::Enum => parse_enum(module, reader),
        Keyword::Bits => parse_bits(module, reader),
        Keyword::Variant => parse_variant(module, reader),
        _ => parse_seq(module, reader),
    }
}

/// How building a module ended.
#[derive(Debug)]
pub enum BuildOutcome {
    Built(PartialModule),
    Failed(ModuleBuildError),
    /// The source reaches a keyword whose declarations are not supported yet.
    Unsupported(Keyword, Span),
}

impl PartialModule {
    /// Builds a module named `name` from source text: lexes it, parses its
    /// declarations, then checks the rules (see `build_spec`).
    pub fn build(name: String, source: &str) -> (r: BuildOutcome)
        requires
            source@.len() + 11 <= u32::MAX,
        ensures
            match (r, build_spec(source@)) {
                (BuildOutcome::Built(pm), Outcome::Built(m)) => pm.table() == m && pm.name_model()
                    == name@ && pm.wf(),
                (BuildOutcome::Failed(e), Outcome::Failed(f)) => e@ == f,
                (BuildOutcome::Unsupported(k, sp), Outcome::Unsupported(k2, sp2)) => k == k2 && sp
                    == sp2,
                _ => false,
            },
    {
        let mut module = PartialModule::with_builtins(name);
        let tokens = match lex_str(source) {
            Ok(t) => t,
            Err(e) => return BuildOutcome::Failed(ModuleBuildError::Lex(e)),
        };
        proof {
            lemma_lex_from_len(source@, 0);
        }
        let mut reader = TokenReader::new(tokens);
        let ghost ts0 = reader@;
        loop
            invariant_except_break
                budget(module.table(), reader@),
                decls_spec(builtin_table(), ts0) == decls_spec(module.table(), reader@),
            invariant
                module.name_model() == name@,
                table_wf(module.table()),
                lex_spec(source@) == Ok::<Seq<TokenModel>, crate::tokens::LexErrorModel>(ts0),
            ensures
                module.name_model() == name@,
                table_wf(module.table()),
                lex_spec(source@) == Ok::<Seq<TokenModel>, crate::tokens::LexErrorModel>(ts0),
                decls_spec(builtin_table(), ts0) == Outcome::Built(module.table()),
            decreases reader@.len(),
        {
            let ghost ts = reader@;
            proof {
                lemma_scan_kw(ts);
            }
            let next = reader.scan_to_next_kw();
            match next {
                None => {
                    break;
                },
                Some((kw, span)) => {
                    proof {
                        lemma_decl(kw, module.table(), reader@);
                    }
                    if matches!(kw, Keyword::Alias | Keyword::Use | Keyword::As) {
                        return BuildOutcome::Unsupported(kw, span);
                    }
                    if let Err(e) = parse_decl(kw, &mut module, &mut reader) {
                        return BuildOutcome::Failed(e);
                    }
                },
            }
        }
        match module.validate() {
            Err(e) => BuildOutcome::Failed(e),
            Ok(()) => BuildOutcome::Built(module),
        }
    }

    /// Builds the module named `string` from source text.
    pub fn from_string(source: &str) -> (r: Result<PartialModule, ModuleBuildError>)
        requires
            source@.len() + 11 <= u32::MAX,
            !(build_spec(source@) is Unsupported),
        ensures
            match (r, build_spec(source@)) {
                (Ok(pm), Outcome::Built(m)) => pm.table() == m && pm.name_model() == "string"@
                    && pm.wf(),
                (Err(e), Outcome::Failed(f)) => e@ == f,
                _ => false,
            },
    {
        match PartialModule::build("string".to_string(), source) {
            BuildOutcome::Built(m) => Ok(m),
            BuildOutcome::Failed(e) => Err(e),
            BuildOutcome::Unsupported(_, _) => {
                proof {
                    assert(false);
                }
                Err(ModuleBuildError::Internal("unsupported declaration".to_string()))
            },
        }
    }
}

} // verus!
