//! Line-oriented parser for `.jaw` sources.
//!
//! A declaration starts with a header line `<kind> <Name> [: <detail>]`; the
//! members of `pack`, `seq`, `enum`, `bits` and `variant` follow on lines that
//! start with `-` (a member) or `>` (a default member). `#` starts a comment,
//! blank lines are skipped, and `from "<path>" use {A, B}` / `use *` imports
//! must come before the first declaration.
use std::sync::Arc;

use vstd::prelude::*;
use vstd::utf8::encode_utf8;

use super::ast::{
    bitfld_members_model, enum_members_model, first_illegal, imports_model, struct_members_model,
    type_names_model, types_model, variant_members_model, Alias, Bitfld, BitfldMember, BitfldMemberModel, Const, DynamicArray, Enum,
    EnumMember, EnumMemberModel, FixedArray, Import, ImportModel, KindModel, Module, ModuleModel,
    Pack, Sequence, StructMember, StructMemberModel, Type, TypeKind, TypeModel, TypeName, Variant,
    VariantMember, VariantMemberModel,
};
use super::error::{ErrorModel, IntermediateError};
use super::source::{loc, LocationModel, Position, SourceCode, SourceLocation};
use crate::strings::{
    find, find_char_from, lemma_find_from, lines_of, parse_i64, parse_i64_spec, parse_u64,
    parse_u64_spec, slice_chars, split_lines, split_words, trim, trim_chars, words, words_model,
    words_from, comma_split_from, split_words_at_chars, split_commas, char_words_model,
    find_from, byte_offset_of, lines_from, lemma_words_from, IntErrorKind,
};
use crate::text::{byte_offset, chars_of, concat, lemma_encode_utf8_concat, string_from_chars};

verus! {

// ---------------------------------------------------------------------------
// Byte-length bounds
// ---------------------------------------------------------------------------
/// The UTF-8 encoding of `s` has a length that a `usize` can hold.
pub open spec fn fits(s: Seq<char>) -> bool {
    encode_utf8(s).len() <= usize::MAX
}

pub proof fn lemma_fits_subrange(s: Seq<char>, i: int, j: int)
    requires
        fits(s),
        0 <= i <= j <= s.len(),
    ensures
        fits(s.subrange(i, j)),
{
    assert(s =~= s.subrange(0, i) + s.subrange(i, j) + s.subrange(j, s.len() as int));
    lemma_encode_utf8_concat(s.subrange(0, i) + s.subrange(i, j), s.subrange(j, s.len() as int));
    lemma_encode_utf8_concat(s.subrange(0, i), s.subrange(i, j));
}

pub proof fn lemma_fits_byte_offset(s: Seq<char>)
    requires
        fits(s),
    ensures
        byte_offset(s, s.len() as int) <= usize::MAX,
{
    assert(s.take(s.len() as int) =~= s);
}

// ---------------------------------------------------------------------------
// Lines
// ---------------------------------------------------------------------------
/// A line with surrounding white space and any `#` comment removed.
pub open spec fn clean(l: Seq<char>) -> Seq<char> {
    let t = trim(l);
    match find(t, '#') {
        Some(k) => t.take(k),
        None => t,
    }
}

/// A `#` starts a comment: the cleaned line is the trimmed line cut just before its first
/// `#`, so it holds no `#`, and what follows that `#` is dropped whole.
pub proof fn lemma_clean_cuts_comment(l: Seq<char>)
    ensures
        !clean(l).contains('#'),
        clean(l).is_prefix_of(trim(l)),
        clean(l).len() < trim(l).len() ==> trim(l)[clean(l).len() as int] == '#',
{
    let t = trim(l);
    lemma_find_from(t, '#', 0);
    match find(t, '#') {
        Some(k) => {
            assert(t.take(k).subrange(0, k) =~= t.take(k));
            assert(t.subrange(0, k) =~= t.take(k));
            if t.take(k).contains('#') {
                let q = choose|q: int| 0 <= q < k && t.take(k)[q] == '#';
                assert(t[q] == '#');
            }
        },
        None => {
            assert(t.subrange(0, t.len() as int) =~= t);
            if t.contains('#') {
                let q = choose|q: int| 0 <= q < t.len() && t[q] == '#';
            }
        },
    }
}

/// Skipping leading white space only reads up to the first character that is not white
/// space, so two lines that agree up to such a character skip alike.
proof fn lemma_skip_ws_agree(s1: Seq<char>, s2: Seq<char>, i: int, m: int)
    requires
        0 <= i <= m < s1.len(),
        m < s2.len(),
        !crate::text::unicode_whitespace(s1[m]),
        forall|k: int| 0 <= k <= m ==> s1[k] == s2[k],
    ensures
        crate::strings::skip_ws(s1, i) == crate::strings::skip_ws(s2, i),
        i <= crate::strings::skip_ws(s1, i) <= m,
    decreases m - i,
{
    if i < m && crate::text::unicode_whitespace(s1[i]) {
        lemma_skip_ws_agree(s1, s2, i + 1, m);
    }
}

/// Trimming the end never cuts before a character that is not white space.
proof fn lemma_rskip_ws_keeps(s: Seq<char>, lo: int, j: int, m: int)
    requires
        0 <= lo <= m < j <= s.len(),
        !crate::text::unicode_whitespace(s[m]),
    ensures
        m < crate::strings::rskip_ws(s, lo, j) <= j,
    decreases j - lo,
{
    if j - 1 > m && crate::text::unicode_whitespace(s[j - 1]) {
        lemma_rskip_ws_keeps(s, lo, j - 1, m);
    }
}

proof fn lemma_hash_not_blank()
    ensures
        !crate::text::unicode_whitespace('#'),
{
    assert('#' as u32 == 0x23);
}

/// The first `#` of `t` is at `k` when `t[k]` is `#` and none comes before.
proof fn lemma_find_hash(t: Seq<char>, i: int, k: int)
    requires
        0 <= i <= k < t.len(),
        t[k] == '#',
        forall|m: int| i <= m < k ==> t[m] != '#',
    ensures
        crate::strings::find_from(t, '#', i) == Some(k),
    decreases k - i,
{
    if i < k {
        lemma_find_hash(t, i + 1, k);
    }
}

/// The cleaned form of a line that holds a `#`: the text from the first character that is
/// not white space up to the first `#`.
proof fn lemma_clean_at_hash(s: Seq<char>, h: int)
    requires
        0 <= h < s.len(),
        s[h] == '#',
        forall|m: int| 0 <= m < h ==> s[m] != '#',
    ensures
        crate::strings::skip_ws(s, 0) <= h,
        clean(s) == s.subrange(crate::strings::skip_ws(s, 0), h),
{
    lemma_hash_not_blank();
    lemma_skip_ws_agree(s, s, 0, h);
    let a = crate::strings::skip_ws(s, 0);
    lemma_rskip_ws_keeps(s, a, s.len() as int, h);
    let b = crate::strings::rskip_ws(s, a, s.len() as int);
    let t = s.subrange(a, b);
    assert(t == trim(s));
    assert(t[h - a] == '#');
    assert forall|m: int| 0 <= m < h - a implies t[m] != '#' by {
        assert(t[m] == s[a + m]);
    }
    lemma_find_hash(t, 0, h - a);
    assert(t.take(h - a) =~= s.subrange(a, h));
}

/// Whatever follows a `#` on a line is a comment: text appended after a `#` leaves the
/// cleaned line as it was.
pub proof fn lemma_clean_ignores_comment_text(l: Seq<char>, r: Seq<char>)
    ensures
        clean(l + "#"@ + r) == clean(l + "#"@),
{
    let u = l + "#"@;
    let v = l + "#"@ + r;
    assert("#"@.len() == 1 && "#"@[0] == '#') by {
        reveal_strlit("#");
    }
    assert(u[l.len() as int] == '#');
    lemma_find_from(u, '#', 0);
    let h = find(u, '#')->Some_0;
    assert(forall|k: int| 0 <= k < u.len() ==> v[k] == u[k]);
    lemma_hash_not_blank();
    lemma_clean_at_hash(u, h);
    lemma_clean_at_hash(v, h);
    lemma_skip_ws_agree(u, v, 0, h);
    assert(v.subrange(crate::strings::skip_ws(v, 0), h) =~= u.subrange(crate::strings::skip_ws(u, 0), h));
}

/// Index of the first line at or after `i` that is not empty once cleaned.
pub open spec fn next_line(lines: Seq<Seq<char>>, i: int) -> Option<int>
    decreases lines.len() - i,
{
    if i < 0 || i >= lines.len() {
        None
    } else if clean(lines[i]).len() > 0 {
        Some(i)
    } else {
        next_line(lines, i + 1)
    }
}

pub open spec fn is_member_start(l: Seq<char>) -> bool {
    l.len() > 0 && (l[0] == '-' || l[0] == '>')
}

/// Index of the first line at or after `i` that does not start a member.
pub open spec fn member_block_end(lines: Seq<Seq<char>>, i: int) -> int
    decreases lines.len() - i,
{
    if 0 <= i < lines.len() && is_member_start(lines[i]) {
        member_block_end(lines, i + 1)
    } else {
        i
    }
}

pub proof fn lemma_member_block_end(lines: Seq<Seq<char>>, i: int)
    requires
        0 <= i <= lines.len(),
    ensures
        i <= member_block_end(lines, i) <= lines.len(),
    decreases lines.len() - i,
{
    if i < lines.len() && is_member_start(lines[i]) {
        lemma_member_block_end(lines, i + 1);
    }
}

pub proof fn lemma_next_line(lines: Seq<Seq<char>>, i: int)
    requires
        0 <= i <= lines.len(),
    ensures
        next_line(lines, i) matches Some(k) ==> i <= k < lines.len() && clean(lines[k]).len() > 0,
    decreases lines.len() - i,
{
    if i < lines.len() && clean(lines[i]).len() == 0 {
        lemma_next_line(lines, i + 1);
    }
}

// ---------------------------------------------------------------------------
// Member lines
// ---------------------------------------------------------------------------
#[derive(Debug, Clone, Copy, PartialEq, Eq, Structural)]
pub enum MemberType {
    Normal,
    Default,
}

pub open spec fn malformed(text: Seq<char>, line: int, column: int, reason: Seq<char>) -> ErrorModel {
    ErrorModel::MalformedMember { position: loc(text, line, column), reason }
}

pub open spec fn ticked(s: Seq<char>) -> Seq<char> {
    "`"@ + s + "`"@
}

/// The prefix token of a member line: `-` for a member, `>` for a default one.
pub open spec fn member_start(code: Seq<char>, n: int, toks: Seq<(int, Seq<char>)>) -> Result<
    MemberType,
    ErrorModel,
> {
    if toks.len() == 0 {
        Err(malformed(code, n, 0, "missing member prefix"@))
    } else if toks[0].1 == "-"@ {
        Ok(MemberType::Normal)
    } else if toks[0].1 == ">"@ {
        Ok(MemberType::Default)
    } else {
        Err(malformed(code, n, toks[0].0, "expected `-` or `>` but found "@ + ticked(toks[0].1)))
    }
}

/// The error raised when token `j` is not `text` (`fallback` is the column used when the
/// line has no token `j`).
pub open spec fn demand_text(
    code: Seq<char>,
    n: int,
    toks: Seq<(int, Seq<char>)>,
    j: int,
    text: Seq<char>,
    fallback: int,
) -> Option<ErrorModel> {
    if j >= toks.len() {
        Some(malformed(code, n, fallback, "expected "@ + ticked(text)))
    } else if toks[j].1 == text {
        None
    } else {
        Some(malformed(code, n, toks[j].0, "expected "@ + ticked(text) + " but found "@ + ticked(toks[j].1)))
    }
}

/// The error raised when the line has tokens past index `j`.
pub open spec fn demand_end(code: Seq<char>, n: int, toks: Seq<(int, Seq<char>)>, j: int) -> Option<
    ErrorModel,
> {
    if j < toks.len() {
        Some(malformed(code, n, toks[j].0, "unexpected extra token "@ + ticked(toks[j].1)))
    } else {
        None
    }
}

pub open spec fn illegal(l: LocationModel, c: char) -> ErrorModel {
    ErrorModel::IllegalChar { line: l, reason: c }
}

/// A `pack`/`seq` member line `- name : Type`.
pub open spec fn struct_member_spec(code: Seq<char>, n: int, text: Seq<char>) -> Result<
    (MemberType, StructMemberModel),
    ErrorModel,
> {
    let toks = words(text);
    match member_start(code, n, toks) {
        Err(e) => Err(e),
        Ok(mt) => if toks.len() < 2 {
            Err(malformed(code, n, 0, "missing member name"@))
        } else {
            let place = toks[1].0;
            match demand_text(code, n, toks, 2, ":"@, place) {
                Some(e) => Err(e),
                None => if toks.len() < 4 {
                    Err(malformed(code, n, place, "missing member type"@))
                } else {
                    match first_illegal(toks[3].1) {
                        Some(c) => Err(illegal(loc(code, n, place), c)),
                        None => match demand_end(code, n, toks, 4) {
                            Some(e) => Err(e),
                            None => Ok(
                                (
                                    mt,
                                    StructMemberModel {
                                        name: toks[1].1,
                                        ty: toks[3].1,
                                        defined_at: loc(code, n, place),
                                    },
                                ),
                            ),
                        },
                    }
                },
            }
        },
    }
}

/// An `enum` member line `- NAME = value`.
pub open spec fn enum_member_spec(code: Seq<char>, n: int, text: Seq<char>) -> Result<
    (MemberType, EnumMemberModel),
    ErrorModel,
> {
    let toks = words(text);
    match member_start(code, n, toks) {
        Err(e) => Err(e),
        Ok(mt) => if toks.len() < 2 {
            Err(malformed(code, n, 0, "missing enum member name"@))
        } else {
            let place = toks[1].0;
            match demand_text(code, n, toks, 2, "="@, place) {
                Some(e) => Err(e),
                None => if toks.len() < 4 {
                    Err(malformed(code, n, place, "missing enum member value"@))
                } else {
                    match parse_i64_spec(toks[3].1) {
                        Err(k) => Err(
                            ErrorModel::InvalidNumber {
                                position: loc(code, n, toks[3].0),
                                value: toks[3].1,
                                source: k,
                            },
                        ),
                        Ok(v) => match demand_end(code, n, toks, 4) {
                            Some(e) => Err(e),
                            None => Ok(
                                (
                                    mt,
                                    EnumMemberModel {
                                        name: toks[1].1,
                                        value: v as i64,
                                        defined_at: loc(code, n, place),
                                    },
                                ),
                            ),
                        },
                    }
                },
            }
        },
    }
}

/// A `bits` member line `- range name : Type`.
pub open spec fn bitfld_member_spec(code: Seq<char>, n: int, text: Seq<char>) -> Result<
    (MemberType, BitfldMemberModel),
    ErrorModel,
> {
    let toks = words(text);
    match member_start(code, n, toks) {
        Err(e) => Err(e),
        Ok(mt) => if toks.len() < 2 {
            Err(malformed(code, n, 0, "missing bitfield range"@))
        } else if toks.len() < 3 {
            Err(malformed(code, n, 0, "missing bitfield member name"@))
        } else {
            let place = toks[2].0;
            match demand_text(code, n, toks, 3, ":"@, place) {
                Some(e) => Err(e),
                None => if toks.len() < 5 {
                    Err(malformed(code, n, place, "missing bitfield member type"@))
                } else {
                    match first_illegal(toks[4].1) {
                        Some(c) => Err(illegal(loc(code, n, place), c)),
                        None => match demand_end(code, n, toks, 5) {
                            Some(e) => Err(e),
                            None => Ok(
                                (
                                    mt,
                                    BitfldMemberModel {
                                        name: toks[2].1,
                                        ty: toks[4].1,
                                        range: toks[1].1,
                                        defined_at: loc(code, n, place),
                                    },
                                ),
                            ),
                        },
                    }
                },
            }
        },
    }
}

/// A `variant` member line `- value => Type`.
pub open spec fn variant_member_spec(code: Seq<char>, n: int, text: Seq<char>) -> Result<
    (MemberType, VariantMemberModel),
    ErrorModel,
> {
    let toks = words(text);
    match member_start(code, n, toks) {
        Err(e) => Err(e),
        Ok(mt) => if toks.len() < 2 {
            Err(malformed(code, n, 0, "missing variant discriminant"@))
        } else {
            let vpos = toks[1].0;
            match parse_u64_spec(toks[1].1) {
                Err(k) => Err(
                    ErrorModel::InvalidNumber {
                        position: loc(code, n, vpos),
                        value: toks[1].1,
                        source: k,
                    },
                ),
                Ok(v) => match demand_text(code, n, toks, 2, "=>"@, vpos) {
                    Some(e) => Err(e),
                    None => if toks.len() < 4 {
                        Err(malformed(code, n, vpos, "missing variant type"@))
                    } else {
                        match first_illegal(toks[3].1) {
                            Some(c) => Err(illegal(loc(code, n, vpos), c)),
                            None => match demand_end(code, n, toks, 4) {
                                Some(e) => Err(e),
                                None => Ok(
                                    (
                                        mt,
                                        VariantMemberModel {
                                            ty: toks[3].1,
                                            value: v as u64,
                                            defined_at: loc(code, n, toks[3].0),
                                        },
                                    ),
                                ),
                            },
                        }
                    },
                },
            }
        },
    }
}

/// Parsing context: the shared source and its lines.
struct Reader {
    code: SourceCode,
    lines: Vec<Vec<char>>,
    next: usize,
}

impl Reader {
    spec fn lines(&self) -> Seq<Seq<char>> {
        self.lines@.map_values(|l: Vec<char>| l@)
    }

    spec fn wf(&self) -> bool {
        &&& self.lines() == lines_of(self.code@)
        &&& self.next <= self.lines@.len()
        &&& self.lines@.len() <= usize::MAX
        &&& forall|k: int| 0 <= k < self.lines@.len() ==> fits(#[trigger] self.lines@[k]@)
    }
}

fn member_words(text: &Vec<char>) -> (r: Vec<(usize, Vec<char>)>)
    requires
        fits(text@),
    ensures
        words_model(r@) == words(text@),
{
    proof {
        lemma_fits_byte_offset(text@);
    }
    split_words(text)
}

fn word_is(w: &Vec<char>, lit: &str) -> (b: bool)
    ensures
        b == (w@ == lit@),
{
    let l = chars_of(lit);
    if w.len() != l.len() {
        return false;
    }
    let mut i: usize = 0;
    while i < w.len()
        invariant
            w@.len() == l@.len(),
            l@ == lit@,
            i <= w@.len(),
            forall|k: int| 0 <= k < i ==> w@[k] == l@[k],
        decreases w.len() - i,
    {
        if w[i] != l[i] {
            assert(w@[i as int] != l@[i as int]);
            return false;
        }
        i = i + 1;
    }
    assert(w@ =~= l@);
    true
}

fn malformed_at(code: &SourceCode, n: usize, column: usize, reason: String) -> (r: IntermediateError)
    ensures
        r@ == malformed(code@, n as int, column as int, reason@),
{
    IntermediateError::MalformedMember { position: code.location(n, column), reason }
}

fn ticked_string(s: &Vec<char>) -> (r: String)
    ensures
        r@ == ticked(s@),
{
    let body = string_from_chars(s);
    let mut r = "`".to_string();
    r.append(body.as_str());
    r.append("`");
    r
}

fn member_start_exec(code: &SourceCode, n: usize, toks: &Vec<(usize, Vec<char>)>) -> (r: Result<
    MemberType,
    IntermediateError,
>)
    ensures
        match member_start(code@, n as int, words_model(toks@)) {
            Ok(mt) => r == Ok::<MemberType, IntermediateError>(mt),
            Err(e) => (r matches Err(er) && er@ == e),
        },
{
    let ghost ts = words_model(toks@);
    if toks.len() == 0 {
        return Err(malformed_at(code, n, 0, "missing member prefix".to_string()));
    }
    assert(ts[0] == (toks@[0].0 as int, toks@[0].1@));
    if word_is(&toks[0].1, "-") {
        Ok(MemberType::Normal)
    } else if word_is(&toks[0].1, ">") {
        Ok(MemberType::Default)
    } else {
        let reason = concat("expected `-` or `>` but found ", ticked_string(&toks[0].1).as_str());
        Err(malformed_at(code, n, toks[0].0, reason))
    }
}

fn demand_text_exec(
    code: &SourceCode,
    n: usize,
    toks: &Vec<(usize, Vec<char>)>,
    j: usize,
    text: &str,
    fallback: usize,
) -> (r: Option<IntermediateError>)
    ensures
        match demand_text(code@, n as int, words_model(toks@), j as int, text@, fallback as int) {
            None => r is None,
            Some(e) => (r matches Some(er) && er@ == e),
        },
{
    let ghost ts = words_model(toks@);
    let t = chars_of(text);
    if j >= toks.len() {
        let reason = concat("expected ", ticked_string(&t).as_str());
        return Some(malformed_at(code, n, fallback, reason));
    }
    assert(ts[j as int] == (toks@[j as int].0 as int, toks@[j as int].1@));
    if word_is(&toks[j].1, text) {
        None
    } else {
        let mut reason = concat("expected ", ticked_string(&t).as_str());
        reason.append(" but found ");
        reason.append(ticked_string(&toks[j].1).as_str());
        Some(malformed_at(code, n, toks[j].0, reason))
    }
}

fn demand_end_exec(code: &SourceCode, n: usize, toks: &Vec<(usize, Vec<char>)>, j: usize) -> (r:
    Option<IntermediateError>)
    ensures
        match demand_end(code@, n as int, words_model(toks@), j as int) {
            None => r is None,
            Some(e) => (r matches Some(er) && er@ == e),
        },
{
    let ghost ts = words_model(toks@);
    if j < toks.len() {
        assert(ts[j as int] == (toks@[j as int].0 as int, toks@[j as int].1@));
        let reason = concat("unexpected extra token ", ticked_string(&toks[j].1).as_str());
        Some(malformed_at(code, n, toks[j].0, reason))
    } else {
        None
    }
}

impl StructMember {
    /// Parses a struct-like member line (used by `pack` and `seq`).
    fn parse(code: &SourceCode, n: usize, text: &Vec<char>) -> (r: Result<
        (MemberType, StructMember),
        IntermediateError,
    >)
        requires
            fits(text@),
        ensures
            match struct_member_spec(code@, n as int, text@) {
                Ok((mt, m)) => (r matches Ok((rt, rm)) && rt == mt && rm@ == m),
                Err(e) => (r matches Err(er) && er@ == e),
            },
    {
        let toks = member_words(text);
        let ghost ts = words_model(toks@);
        let mt = member_start_exec(code, n, &toks)?;
        if toks.len() < 2 {
            return Err(malformed_at(code, n, 0, "missing member name".to_string()));
        }
        assert(ts[1] == (toks@[1].0 as int, toks@[1].1@));
        let place = toks[1].0;
        if let Some(e) = demand_text_exec(code, n, &toks, 2, ":", place) {
            return Err(e);
        }
        if toks.len() < 4 {
            return Err(malformed_at(code, n, place, "missing member type".to_string()));
        }
        assert(ts[3] == (toks@[3].0 as int, toks@[3].1@));
        let ty = TypeName::from_chars(code.location(n, place), &toks[3].1)?;
        if let Some(e) = demand_end_exec(code, n, &toks, 4) {
            return Err(e);
        }
        Ok(
            (
                mt,
                StructMember {
                    name: string_from_chars(&toks[1].1),
                    ty,
                    defined_at: code.location(n, place),
                },
            ),
        )
    }
}

impl EnumMember {
    /// Parses an enum member line (name, `=`, value).
    fn parse(code: &SourceCode, n: usize, text: &Vec<char>) -> (r: Result<
        (MemberType, EnumMember),
        IntermediateError,
    >)
        requires
            fits(text@),
        ensures
            match enum_member_spec(code@, n as int, text@) {
                Ok((mt, m)) => (r matches Ok((rt, rm)) && rt == mt && rm@ == m),
                Err(e) => (r matches Err(er) && er@ == e),
            },
    {
        let toks = member_words(text);
        let ghost ts = words_model(toks@);
        let mt = member_start_exec(code, n, &toks)?;
        if toks.len() < 2 {
            return Err(malformed_at(code, n, 0, "missing enum member name".to_string()));
        }
        assert(ts[1] == (toks@[1].0 as int, toks@[1].1@));
        let place = toks[1].0;
        if let Some(e) = demand_text_exec(code, n, &toks, 2, "=", place) {
            return Err(e);
        }
        if toks.len() < 4 {
            return Err(malformed_at(code, n, place, "missing enum member value".to_string()));
        }
        assert(ts[3] == (toks@[3].0 as int, toks@[3].1@));
        let value = match parse_i64(&toks[3].1) {
            Ok(v) => v,
            Err(k) => {
                return Err(
                    IntermediateError::InvalidNumber {
                        position: code.location(n, toks[3].0),
                        value: string_from_chars(&toks[3].1),
                        source: k,
                    },
                );
            },
        };
        if let Some(e) = demand_end_exec(code, n, &toks, 4) {
            return Err(e);
        }
        Ok(
            (
                mt,
                EnumMember {
                    name: string_from_chars(&toks[1].1),
                    value,
                    defined_at: code.location(n, place),
                },
            ),
        )
    }
}

impl BitfldMember {
    /// Parses a bitfield member line (range, name, `:`, type).
    fn parse(code: &SourceCode, n: usize, text: &Vec<char>) -> (r: Result<
        (MemberType, BitfldMember),
        IntermediateError,
    >)
        requires
            fits(text@),
        ensures
            match bitfld_member_spec(code@, n as int, text@) {
                Ok((mt, m)) => (r matches Ok((rt, rm)) && rt == mt && rm@ == m),
                Err(e) => (r matches Err(er) && er@ == e),
            },
    {
        let toks = member_words(text);
        let ghost ts = words_model(toks@);
        let mt = member_start_exec(code, n, &toks)?;
        if toks.len() < 2 {
            return Err(malformed_at(code, n, 0, "missing bitfield range".to_string()));
        }
        if toks.len() < 3 {
            return Err(malformed_at(code, n, 0, "missing bitfield member name".to_string()));
        }
        assert(ts[1] == (toks@[1].0 as int, toks@[1].1@));
        assert(ts[2] == (toks@[2].0 as int, toks@[2].1@));
        let place = toks[2].0;
        if let Some(e) = demand_text_exec(code, n, &toks, 3, ":", place) {
            return Err(e);
        }
        if toks.len() < 5 {
            return Err(malformed_at(code, n, place, "missing bitfield member type".to_string()));
        }
        assert(ts[4] == (toks@[4].0 as int, toks@[4].1@));
        let ty = TypeName::from_chars(code.location(n, place), &toks[4].1)?;
        if let Some(e) = demand_end_exec(code, n, &toks, 5) {
            return Err(e);
        }
        Ok(
            (
                mt,
                BitfldMember {
                    name: string_from_chars(&toks[2].1),
                    ty,
                    range: string_from_chars(&toks[1].1),
                    defined_at: code.location(n, place),
                },
            ),
        )
    }
}

impl VariantMember {
    /// Parses a variant member line (discriminant, `=>`, payload type).
    fn parse(code: &SourceCode, n: usize, text: &Vec<char>) -> (r: Result<
        (MemberType, VariantMember),
        IntermediateError,
    >)
        requires
            fits(text@),
        ensures
            match variant_member_spec(code@, n as int, text@) {
                Ok((mt, m)) => (r matches Ok((rt, rm)) && rt == mt && rm@ == m),
                Err(e) => (r matches Err(er) && er@ == e),
            },
    {
        let toks = member_words(text);
        let ghost ts = words_model(toks@);
        let mt = member_start_exec(code, n, &toks)?;
        if toks.len() < 2 {
            return Err(malformed_at(code, n, 0, "missing variant discriminant".to_string()));
        }
        assert(ts[1] == (toks@[1].0 as int, toks@[1].1@));
        let vpos = toks[1].0;
        let value = match parse_u64(&toks[1].1) {
            Ok(v) => v,
            Err(k) => {
                return Err(
                    IntermediateError::InvalidNumber {
                        position: code.location(n, vpos),
                        value: string_from_chars(&toks[1].1),
                        source: k,
                    },
                );
            },
        };
        if let Some(e) = demand_text_exec(code, n, &toks, 2, "=>", vpos) {
            return Err(e);
        }
        if toks.len() < 4 {
            return Err(malformed_at(code, n, vpos, "missing variant type".to_string()));
        }
        assert(ts[3] == (toks@[3].0 as int, toks@[3].1@));
        let ty = TypeName::from_chars(code.location(n, vpos), &toks[3].1)?;
        if let Some(e) = demand_end_exec(code, n, &toks, 4) {
            return Err(e);
        }
        Ok((mt, VariantMember { ty, value, defined_at: code.location(n, toks[3].0) }))
    }
}

// ---------------------------------------------------------------------------
// Member blocks
// ---------------------------------------------------------------------------
/// Folds the member lines `i..end` with `parse`, separating default (`>`) members;
/// a second default member is an error at its location.
pub open spec fn block<M>(
    parse: spec_fn(int, Seq<char>) -> Result<(MemberType, M), ErrorModel>,
    at: spec_fn(M) -> LocationModel,
    lines: Seq<Seq<char>>,
    i: int,
    end: int,
    acc: Seq<M>,
    def: Option<M>,
) -> Result<(Seq<M>, Option<M>), ErrorModel>
    decreases end - i,
{
    if i >= end {
        Ok((acc, def))
    } else {
        match parse(i, clean(lines[i])) {
            Err(e) => Err(e),
            Ok((MemberType::Normal, m)) => block(parse, at, lines, i + 1, end, acc.push(m), def),
            Ok((MemberType::Default, m)) => if def is Some {
                Err(ErrorModel::DuplicateDefault { line: at(m) })
            } else {
                block(parse, at, lines, i + 1, end, acc, Some(m))
            },
        }
    }
}

pub open spec fn struct_parse(code: Seq<char>) -> spec_fn(int, Seq<char>) -> Result<
    (MemberType, StructMemberModel),
    ErrorModel,
> {
    |n: int, t: Seq<char>| struct_member_spec(code, n, t)
}

pub open spec fn struct_at() -> spec_fn(StructMemberModel) -> LocationModel {
    |m: StructMemberModel| m.defined_at
}

pub open spec fn struct_block(code: Seq<char>, lines: Seq<Seq<char>>, i: int) -> Result<
    (Seq<StructMemberModel>, Option<StructMemberModel>),
    ErrorModel,
> {
    block(
        struct_parse(code),
        struct_at(),
        lines,
        i,
        member_block_end(lines, i),
        Seq::empty(),
        None,
    )
}

pub open spec fn enum_parse(code: Seq<char>) -> spec_fn(int, Seq<char>) -> Result<
    (MemberType, EnumMemberModel),
    ErrorModel,
> {
    |n: int, t: Seq<char>| enum_member_spec(code, n, t)
}

pub open spec fn enum_at() -> spec_fn(EnumMemberModel) -> LocationModel {
    |m: EnumMemberModel| m.defined_at
}

pub open spec fn enum_block(code: Seq<char>, lines: Seq<Seq<char>>, i: int) -> Result<
    (Seq<EnumMemberModel>, Option<EnumMemberModel>),
    ErrorModel,
> {
    block(
        enum_parse(code),
        enum_at(),
        lines,
        i,
        member_block_end(lines, i),
        Seq::empty(),
        None,
    )
}

pub open spec fn bitfld_parse(code: Seq<char>) -> spec_fn(int, Seq<char>) -> Result<
    (MemberType, BitfldMemberModel),
    ErrorModel,
> {
    |n: int, t: Seq<char>| bitfld_member_spec(code, n, t)
}

pub open spec fn bitfld_at() -> spec_fn(BitfldMemberModel) -> LocationModel {
    |m: BitfldMemberModel| m.defined_at
}

pub open spec fn bitfld_block(code: Seq<char>, lines: Seq<Seq<char>>, i: int) -> Result<
    (Seq<BitfldMemberModel>, Option<BitfldMemberModel>),
    ErrorModel,
> {
    block(
        bitfld_parse(code),
        bitfld_at(),
        lines,
        i,
        member_block_end(lines, i),
        Seq::empty(),
        None,
    )
}

pub open spec fn variant_parse(code: Seq<char>) -> spec_fn(int, Seq<char>) -> Result<
    (MemberType, VariantMemberModel),
    ErrorModel,
> {
    |n: int, t: Seq<char>| variant_member_spec(code, n, t)
}

pub open spec fn variant_at() -> spec_fn(VariantMemberModel) -> LocationModel {
    |m: VariantMemberModel| m.defined_at
}

pub open spec fn variant_block(code: Seq<char>, lines: Seq<Seq<char>>, i: int) -> Result<
    (Seq<VariantMemberModel>, Option<VariantMemberModel>),
    ErrorModel,
> {
    block(
        variant_parse(code),
        variant_at(),
        lines,
        i,
        member_block_end(lines, i),
        Seq::empty(),
        None,
    )
}

pub proof fn lemma_block_step<M>(
    parse: spec_fn(int, Seq<char>) -> Result<(MemberType, M), ErrorModel>,
    at: spec_fn(M) -> LocationModel,
    lines: Seq<Seq<char>>,
    i: int,
    end: int,
    acc: Seq<M>,
    def: Option<M>,
)
    requires
        i < end,
    ensures
        block(parse, at, lines, i, end, acc, def) == match parse(i, clean(lines[i])) {
            Err(e) => Err(e),
            Ok((MemberType::Normal, m)) => block(parse, at, lines, i + 1, end, acc.push(m), def),
            Ok((MemberType::Default, m)) => if def is Some {
                Err(ErrorModel::DuplicateDefault { line: at(m) })
            } else {
                block(parse, at, lines, i + 1, end, acc, Some(m))
            },
        },
{
}

pub open spec fn opt_struct(o: Option<StructMember>) -> Option<StructMemberModel> {
    match o {
        Some(x) => Some(x@),
        None => None,
    }
}

pub open spec fn opt_enum(o: Option<EnumMember>) -> Option<EnumMemberModel> {
    match o {
        Some(x) => Some(x@),
        None => None,
    }
}

pub open spec fn opt_bitfld(o: Option<BitfldMember>) -> Option<BitfldMemberModel> {
    match o {
        Some(x) => Some(x@),
        None => None,
    }
}

pub open spec fn opt_variant(o: Option<VariantMember>) -> Option<VariantMemberModel> {
    match o {
        Some(x) => Some(x@),
        None => None,
    }
}


impl Reader {
    /// The cleaned text of the current line.
    fn clean_line(&self, k: usize) -> (r: Vec<char>)
        requires
            self.wf(),
            k < self.lines@.len(),
        ensures
            r@ == clean(self.lines()[k as int]),
            fits(r@),
    {
        let t = trim_chars(&self.lines[k]);
        assert(self.lines()[k as int] == self.lines@[k as int]@);
        proof {
            crate::strings::lemma_skip_ws(self.lines@[k as int]@, 0);
            crate::strings::lemma_rskip_ws(
                self.lines@[k as int]@,
                crate::strings::skip_ws(self.lines@[k as int]@, 0),
                self.lines@[k as int]@.len() as int,
            );
            lemma_fits_subrange(
                self.lines@[k as int]@,
                crate::strings::skip_ws(self.lines@[k as int]@, 0),
                crate::strings::rskip_ws(
                    self.lines@[k as int]@,
                    crate::strings::skip_ws(self.lines@[k as int]@, 0),
                    self.lines@[k as int]@.len() as int,
                ),
            );
            lemma_find_from(t@, '#', 0);
        }
        match find_char_from(&t, '#', 0) {
            Some(h) => {
                proof {
                    lemma_fits_subrange(t@, 0, h as int);
                    assert(t@.take(h as int) =~= t@.subrange(0, h as int));
                }
                slice_chars(&t, 0, h)
            },
            None => t,
        }
    }

    /// Whether line `k` starts a member (`-` or `>` in its first column).
    fn is_member_line(&self, k: usize) -> (b: bool)
        requires
            self.wf(),
        ensures
            b == (k < self.lines@.len() && is_member_start(self.lines()[k as int])),
    {
        if k >= self.lines.len() {
            return false;
        }
        assert(self.lines()[k as int] == self.lines@[k as int]@);
        let l = &self.lines[k];
        l.len() > 0 && (l[0] == '-' || l[0] == '>')
    }

    fn struct_members(&mut self) -> (r: Result<
        (Vec<StructMember>, Option<StructMember>),
        IntermediateError,
    >)
        requires
            old(self).wf(),
        ensures
            final(self).wf(),
            final(self).code == old(self).code,
            final(self).lines == old(self).lines,
            r is Ok ==> final(self).next == member_block_end(old(self).lines(), old(self).next as int),
            match struct_block(old(self).code@, old(self).lines(), old(self).next as int) {
                Ok((ms, d)) => (r matches Ok((rm, rd)) && struct_members_model(rm@) == ms
                    && opt_struct(rd) == d),
                Err(e) => (r matches Err(er) && er@ == e),
            },
    {
        let ghost code = self.code@;
        let ghost lines = self.lines();
        let ghost parse = struct_parse(code);
        let ghost at = struct_at();
        let ghost start = self.next as int;
        let ghost end = member_block_end(lines, start);
        proof {
            lemma_member_block_end(lines, start);
        }
        let mut ret: Vec<StructMember> = Vec::new();
        let mut def: Option<StructMember> = None;
        assert(struct_members_model(ret@) =~= Seq::empty());
        while self.is_member_line(self.next)
            invariant
                self.wf(),
                self.code@ == code,
                self.lines() == lines,
                self.code == old(self).code,
                self.lines == old(self).lines,
                code == old(self).code@,
                lines == old(self).lines(),
                parse == struct_parse(code),
                at == struct_at(),
                start == old(self).next as int,
                end == member_block_end(lines, start),
                start <= self.next <= end,
                end == member_block_end(lines, self.next as int),
                block(parse, at, lines, start, end, Seq::empty(), None) == block(
                    parse,
                    at,
                    lines,
                    self.next as int,
                    end,
                    struct_members_model(ret@),
                    opt_struct(def),
                ),
            decreases end - self.next,
        {
            let k = self.next;
            let text = self.clean_line(k);
            proof {
                lemma_member_block_end(lines, k as int + 1);
                lemma_block_step(
                    parse,
                    at,
                    lines,
                    k as int,
                    end,
                    struct_members_model(ret@),
                    opt_struct(def),
                );
            }
            self.next = self.next + 1;
            proof {
                assert(parse(k as int, text@) == struct_member_spec(code, k as int, text@));
                assert(at == struct_at());
            }
            let (mt, parsed) = StructMember::parse(&self.code, k, &text)?;
            match mt {
                MemberType::Normal => {
                    let ghost before = struct_members_model(ret@);
                    ret.push(parsed);
                    assert(struct_members_model(ret@) =~= before.push(parsed@));
                },
                MemberType::Default => {
                    if def.is_some() {
                        return Err(
                            IntermediateError::DuplicateDefault { line: parsed.defined_at.clone() },
                        );
                    }
                    def = Some(parsed);
                },
            }
        }
        Ok((ret, def))
    }

    fn enum_members(&mut self) -> (r: Result<
        (Vec<EnumMember>, Option<EnumMember>),
        IntermediateError,
    >)
        requires
            old(self).wf(),
        ensures
            final(self).wf(),
            final(self).code == old(self).code,
            final(self).lines == old(self).lines,
            r is Ok ==> final(self).next == member_block_end(old(self).lines(), old(self).next as int),
            match enum_block(old(self).code@, old(self).lines(), old(self).next as int) {
                Ok((ms, d)) => (r matches Ok((rm, rd)) && enum_members_model(rm@) == ms
                    && opt_enum(rd) == d),
                Err(e) => (r matches Err(er) && er@ == e),
            },
    {
        let ghost code = self.code@;
        let ghost lines = self.lines();
        let ghost parse = enum_parse(code);
        let ghost at = enum_at();
        let ghost start = self.next as int;
        let ghost end = member_block_end(lines, start);
        proof {
            lemma_member_block_end(lines, start);
        }
        let mut ret: Vec<EnumMember> = Vec::new();
        let mut def: Option<EnumMember> = None;
        assert(enum_members_model(ret@) =~= Seq::empty());
        while self.is_member_line(self.next)
            invariant
                self.wf(),
                self.code@ == code,
                self.lines() == lines,
                self.code == old(self).code,
                self.lines == old(self).lines,
                code == old(self).code@,
                lines == old(self).lines(),
                parse == enum_parse(code),
                at == enum_at(),
                start == old(self).next as int,
                end == member_block_end(lines, start),
                start <= self.next <= end,
                end == member_block_end(lines, self.next as int),
                block(parse, at, lines, start, end, Seq::empty(), None) == block(
                    parse,
                    at,
                    lines,
                    self.next as int,
                    end,
                    enum_members_model(ret@),
                    opt_enum(def),
                ),
            decreases end - self.next,
        {
            let k = self.next;
            let text = self.clean_line(k);
            proof {
                lemma_member_block_end(lines, k as int + 1);
                lemma_block_step(
                    parse,
                    at,
                    lines,
                    k as int,
                    end,
                    enum_members_model(ret@),
                    opt_enum(def),
                );
            }
            self.next = self.next + 1;
            proof {
                assert(parse(k as int, text@) == enum_member_spec(code, k as int, text@));
                assert(at == enum_at());
            }
            let (mt, parsed) = EnumMember::parse(&self.code, k, &text)?;
            match mt {
                MemberType::Normal => {
                    let ghost before = enum_members_model(ret@);
                    ret.push(parsed);
                    assert(enum_members_model(ret@) =~= before.push(parsed@));
                },
                MemberType::Default => {
                    if def.is_some() {
                        return Err(
                            IntermediateError::DuplicateDefault { line: parsed.defined_at.clone() },
                        );
                    }
                    def = Some(parsed);
                },
            }
        }
        Ok((ret, def))
    }

    fn bitfld_members(&mut self) -> (r: Result<
        (Vec<BitfldMember>, Option<BitfldMember>),
        IntermediateError,
    >)
        requires
            old(self).wf(),
        ensures
            final(self).wf(),
            final(self).code == old(self).code,
            final(self).lines == old(self).lines,
            r is Ok ==> final(self).next == member_block_end(old(self).lines(), old(self).next as int),
            match bitfld_block(old(self).code@, old(self).lines(), old(self).next as int) {
                Ok((ms, d)) => (r matches Ok((rm, rd)) && bitfld_members_model(rm@) == ms
                    && opt_bitfld(rd) == d),
                Err(e) => (r matches Err(er) && er@ == e),
            },
    {
        let ghost code = self.code@;
        let ghost lines = self.lines();
        let ghost parse = bitfld_parse(code);
        let ghost at = bitfld_at();
        let ghost start = self.next as int;
        let ghost end = member_block_end(lines, start);
        proof {
            lemma_member_block_end(lines, start);
        }
        let mut ret: Vec<BitfldMember> = Vec::new();
        let mut def: Option<BitfldMember> = None;
        assert(bitfld_members_model(ret@) =~= Seq::empty());
        while self.is_member_line(self.next)
            invariant
                self.wf(),
                self.code@ == code,
                self.lines() == lines,
                self.code == old(self).code,
                self.lines == old(self).lines,
                code == old(self).code@,
                lines == old(self).lines(),
                parse == bitfld_parse(code),
                at == bitfld_at(),
                start == old(self).next as int,
                end == member_block_end(lines, start),
                start <= self.next <= end,
                end == member_block_end(lines, self.next as int),
                block(parse, at, lines, start, end, Seq::empty(), None) == block(
                    parse,
                    at,
                    lines,
                    self.next as int,
                    end,
                    bitfld_members_model(ret@),
                    opt_bitfld(def),
                ),
            decreases end - self.next,
        {
            let k = self.next;
            let text = self.clean_line(k);
            proof {
                lemma_member_block_end(lines, k as int + 1);
                lemma_block_step(
                    parse,
                    at,
                    lines,
                    k as int,
                    end,
                    bitfld_members_model(ret@),
                    opt_bitfld(def),
                );
            }
            self.next = self.next + 1;
            proof {
                assert(parse(k as int, text@) == bitfld_member_spec(code, k as int, text@));
                assert(at == bitfld_at());
            }
            let (mt, parsed) = BitfldMember::parse(&self.code, k, &text)?;
            match mt {
                MemberType::Normal => {
                    let ghost before = bitfld_members_model(ret@);
                    ret.push(parsed);
                    assert(bitfld_members_model(ret@) =~= before.push(parsed@));
                },
                MemberType::Default => {
                    if def.is_some() {
                        return Err(
                            IntermediateError::DuplicateDefault { line: parsed.defined_at.clone() },
                        );
                    }
                    def = Some(parsed);
                },
            }
        }
        Ok((ret, def))
    }

    fn variant_members(&mut self) -> (r: Result<
        (Vec<VariantMember>, Option<VariantMember>),
        IntermediateError,
    >)
        requires
            old(self).wf(),
        ensures
            final(self).wf(),
            final(self).code == old(self).code,
            final(self).lines == old(self).lines,
            r is Ok ==> final(self).next == member_block_end(old(self).lines(), old(self).next as int),
            match variant_block(old(self).code@, old(self).lines(), old(self).next as int) {
                Ok((ms, d)) => (r matches Ok((rm, rd)) && variant_members_model(rm@) == ms
                    && opt_variant(rd) == d),
                Err(e) => (r matches Err(er) && er@ == e),
            },
    {
        let ghost code = self.code@;
        let ghost lines = self.lines();
        let ghost parse = variant_parse(code);
        let ghost at = variant_at();
        let ghost start = self.next as int;
        let ghost end = member_block_end(lines, start);
        proof {
            lemma_member_block_end(lines, start);
        }
        let mut ret: Vec<VariantMember> = Vec::new();
        let mut def: Option<VariantMember> = None;
        assert(variant_members_model(ret@) =~= Seq::empty());
        while self.is_member_line(self.next)
            invariant
                self.wf(),
                self.code@ == code,
                self.lines() == lines,
                self.code == old(self).code,
                self.lines == old(self).lines,
                code == old(self).code@,
                lines == old(self).lines(),
                parse == variant_parse(code),
                at == variant_at(),
                start == old(self).next as int,
                end == member_block_end(lines, start),
                start <= self.next <= end,
                end == member_block_end(lines, self.next as int),
                block(parse, at, lines, start, end, Seq::empty(), None) == block(
                    parse,
                    at,
                    lines,
                    self.next as int,
                    end,
                    variant_members_model(ret@),
                    opt_variant(def),
                ),
            decreases end - self.next,
        {
            let k = self.next;
            let text = self.clean_line(k);
            proof {
                lemma_member_block_end(lines, k as int + 1);
                lemma_block_step(
                    parse,
                    at,
                    lines,
                    k as int,
                    end,
                    variant_members_model(ret@),
                    opt_variant(def),
                );
            }
            self.next = self.next + 1;
            proof {
                assert(parse(k as int, text@) == variant_member_spec(code, k as int, text@));
                assert(at == variant_at());
            }
            let (mt, parsed) = VariantMember::parse(&self.code, k, &text)?;
            match mt {
                MemberType::Normal => {
                    let ghost before = variant_members_model(ret@);
                    ret.push(parsed);
                    assert(variant_members_model(ret@) =~= before.push(parsed@));
                },
                MemberType::Default => {
                    if def.is_some() {
                        return Err(
                            IntermediateError::DuplicateDefault { line: parsed.defined_at.clone() },
                        );
                    }
                    def = Some(parsed);
                },
            }
        }
        Ok((ret, def))
    }
}


// ---------------------------------------------------------------------------
// Declaration headers
// ---------------------------------------------------------------------------
/// The detail of a header line: what follows its first `:`, trimmed.
pub open spec fn detail(t: Seq<char>) -> Option<Seq<char>> {
    match find(t, ':') {
        Some(q) => Some(trim(t.skip(q + 1))),
        None => None,
    }
}

pub open spec fn missing(code: Seq<char>, k: int, kind: Seq<char>) -> ErrorModel {
    ErrorModel::MissingDeclarationDetail { line: loc(code, k, 0), kind }
}

pub open spec fn no_default(at: LocationModel, what: Seq<char>) -> ErrorModel {
    ErrorModel::MalformedMember {
        position: at,
        reason: what + " declarations do not support default members"@,
    }
}

/// A type name written at `l`: refused at its first illegal character.
pub open spec fn type_name_spec(l: LocationModel, s: Seq<char>) -> Result<Seq<char>, ErrorModel> {
    match first_illegal(s) {
        Some(c) => Err(illegal(l, c)),
        None => Ok(s),
    }
}

/// `alias Name : Other`, header on line `k`.
pub open spec fn alias_spec(code: Seq<char>, k: int, extra: Option<Seq<char>>) -> Result<
    KindModel,
    ErrorModel,
> {
    match extra {
        None => Err(missing(code, k, "Alias"@)),
        Some(e) => match type_name_spec(loc(code, k, 0), trim(e)) {
            Err(x) => Err(x),
            Ok(t) => Ok(KindModel::Alias { other: t }),
        },
    }
}

/// `pack Name` followed by its member lines from line `k + 1`.
pub open spec fn pack_spec(code: Seq<char>, lines: Seq<Seq<char>>, k: int) -> Result<
    KindModel,
    ErrorModel,
> {
    match struct_block(code, lines, k + 1) {
        Err(e) => Err(e),
        Ok((ms, d)) => match d {
            Some(x) => Err(no_default(x.defined_at, "pack"@)),
            None => Ok(KindModel::Pack { members: ms }),
        },
    }
}

/// `seq Name` followed by its member lines from line `k + 1`.
pub open spec fn seq_spec(code: Seq<char>, lines: Seq<Seq<char>>, k: int) -> Result<
    KindModel,
    ErrorModel,
> {
    match struct_block(code, lines, k + 1) {
        Err(e) => Err(e),
        Ok((ms, d)) => match d {
            Some(x) => Err(no_default(x.defined_at, "sequence"@)),
            None => Ok(KindModel::Sequence { members: ms }),
        },
    }
}

/// `enum Name : Base` followed by its member lines; one default member is allowed.
pub open spec fn enum_spec(
    code: Seq<char>,
    lines: Seq<Seq<char>>,
    k: int,
    extra: Option<Seq<char>>,
) -> Result<KindModel, ErrorModel> {
    match extra {
        None => Err(missing(code, k, "enum"@)),
        Some(e) => match type_name_spec(loc(code, k, 0), e) {
            Err(x) => Err(x),
            Ok(t) => match enum_block(code, lines, k + 1) {
                Err(x) => Err(x),
                Ok((ms, d)) => Ok(KindModel::Enum { ty: t, members: ms, default: d }),
            },
        },
    }
}

/// `bits Name : Base` followed by its member lines.
pub open spec fn bits_spec(
    code: Seq<char>,
    lines: Seq<Seq<char>>,
    k: int,
    extra: Option<Seq<char>>,
) -> Result<KindModel, ErrorModel> {
    match extra {
        None => Err(missing(code, k, "bits"@)),
        Some(e) => match type_name_spec(loc(code, k, 0), e) {
            Err(x) => Err(x),
            Ok(t) => match bitfld_block(code, lines, k + 1) {
                Err(x) => Err(x),
                Ok((ms, d)) => match d {
                    Some(x) => Err(no_default(x.defined_at, "bitfield"@)),
                    None => Ok(KindModel::Bitfld { ty: t, members: ms }),
                },
            },
        },
    }
}

/// `variant Name : Tag` followed by its member lines.
pub open spec fn variant_spec(
    code: Seq<char>,
    lines: Seq<Seq<char>>,
    k: int,
    extra: Option<Seq<char>>,
) -> Result<KindModel, ErrorModel> {
    match extra {
        None => Err(missing(code, k, "variant"@)),
        Some(e) => match type_name_spec(loc(code, k, 0), e) {
            Err(x) => Err(x),
            Ok(t) => match variant_block(code, lines, k + 1) {
                Err(x) => Err(x),
                Ok((ms, d)) => match d {
                    Some(x) => Err(no_default(x.defined_at, "variant"@)),
                    None => Ok(KindModel::Variant { ty: t, members: ms }),
                },
            },
        },
    }
}

/// `fixed_array Name : count * Element`.
pub open spec fn fixed_array_spec(code: Seq<char>, k: int, extra: Option<Seq<char>>) -> Result<
    KindModel,
    ErrorModel,
> {
    let l = loc(code, k, 0);
    match extra {
        None => Err(missing(code, k, "fixed_array"@)),
        Some(e) => match find(e, '*') {
            None => Err(ErrorModel::InvalidArraySpec { line: l }),
            Some(s) => {
                let cs = trim(e.take(s));
                match parse_u64_spec(cs) {
                    Err(kind) => Err(ErrorModel::InvalidNumber { position: l, value: cs, source: kind }),
                    Ok(c) => match type_name_spec(l, trim(e.skip(s + 1))) {
                        Err(x) => Err(x),
                        Ok(v) => Ok(KindModel::FixedArray { count: c as u64, value_type: v }),
                    },
                }
            },
        },
    }
}

/// `dyn_array Name : Size * Element`.
pub open spec fn dyn_array_spec(code: Seq<char>, k: int, extra: Option<Seq<char>>) -> Result<
    KindModel,
    ErrorModel,
> {
    let l = loc(code, k, 0);
    match extra {
        None => Err(missing(code, k, "dyn_array"@)),
        Some(e) => match find(e, '*') {
            None => Err(ErrorModel::InvalidArraySpec { line: l }),
            Some(s) => match type_name_spec(l, trim(e.take(s))) {
                Err(x) => Err(x),
                Ok(st) => match type_name_spec(l, trim(e.skip(s + 1))) {
                    Err(x) => Err(x),
                    Ok(v) => Ok(KindModel::DynamicArray { size_type: st, value_type: v }),
                },
            },
        },
    }
}

/// `const Name : Type = value`.
pub open spec fn const_spec(code: Seq<char>, k: int, extra: Option<Seq<char>>) -> Result<
    KindModel,
    ErrorModel,
> {
    let l = loc(code, k, 0);
    match extra {
        None => Err(missing(code, k, "const"@)),
        Some(e) => match find(e, '=') {
            None => Err(missing(code, k, "const value"@)),
            Some(s) => match type_name_spec(l, trim(e.take(s))) {
                Err(x) => Err(x),
                Ok(t) => {
                    let vs = trim(e.skip(s + 1));
                    match parse_i64_spec(vs) {
                        Err(kind) => Err(ErrorModel::InvalidNumber { position: l, value: vs, source: kind }),
                        Ok(v) => Ok(KindModel::Const { ty: t, value: v as i64 }),
                    }
                },
            },
        },
    }
}

pub open spec fn has_members(kw: Seq<char>) -> bool {
    kw == "pack"@ || kw == "seq"@ || kw == "enum"@ || kw == "bits"@ || kw == "variant"@
}

pub open spec fn is_decl_kind(kw: Seq<char>) -> bool {
    has_members(kw) || kw == "alias"@ || kw == "fixed_array"@ || kw == "dyn_array"@ || kw == "const"@
}

/// The body of a declaration of kind `kw` whose header is line `k`.
#[verifier::opaque]
pub open spec fn kind_spec(
    code: Seq<char>,
    lines: Seq<Seq<char>>,
    k: int,
    kw: Seq<char>,
    extra: Option<Seq<char>>,
) -> Result<KindModel, ErrorModel> {
    if kw == "alias"@ {
        alias_spec(code, k, extra)
    } else if kw == "pack"@ {
        pack_spec(code, lines, k)
    } else if kw == "seq"@ {
        seq_spec(code, lines, k)
    } else if kw == "enum"@ {
        enum_spec(code, lines, k, extra)
    } else if kw == "bits"@ {
        bits_spec(code, lines, k, extra)
    } else if kw == "variant"@ {
        variant_spec(code, lines, k, extra)
    } else if kw == "fixed_array"@ {
        fixed_array_spec(code, k, extra)
    } else if kw == "const"@ {
        const_spec(code, k, extra)
    } else {
        dyn_array_spec(code, k, extra)
    }
}

/// Index of the line after a declaration of kind `kw` whose header is line `k`.
pub open spec fn after_decl(lines: Seq<Seq<char>>, k: int, kw: Seq<char>) -> int {
    if has_members(kw) {
        member_block_end(lines, k + 1)
    } else {
        k + 1
    }
}


// ---------------------------------------------------------------------------
// Imports
// ---------------------------------------------------------------------------
pub open spec fn import_err(code: Seq<char>, n: int, column: int, reason: Seq<char>) -> ErrorModel {
    ErrorModel::InvalidImport { line: loc(code, n, column), reason }
}

pub open spec fn ends_quote(w: Seq<char>) -> bool {
    w.len() > 0 && w.last() == '"'
}

/// Index of the word after the one, at or after `m`, that closes the quoted path.
pub open spec fn path_end(ws: Seq<(int, Seq<char>)>, m: int) -> Option<int>
    decreases ws.len() - m,
{
    if m < 0 || m >= ws.len() {
        None
    } else if ends_quote(ws[m].1) {
        Some(m + 1)
    } else {
        path_end(ws, m + 1)
    }
}

/// The text between the quote at `q` and the next quote (or the end of the line).
pub open spec fn quoted_after(t: Seq<char>, q: int) -> Seq<char> {
    let rest = t.skip(q + 1);
    match find(rest, '"') {
        Some(q2) => rest.take(q2),
        None => rest,
    }
}

/// Byte column of the first `{` of the line, or 0.
pub open spec fn brace_column(t: Seq<char>) -> int {
    match find(t, '{') {
        Some(b) => byte_offset(t, b) as int,
        None => 0,
    }
}

/// The names of a `{A, B}` list: the comma-separated pieces from `i`, trimmed, empty
/// ones skipped; the first illegal character of a name is an error at `l`.
pub open spec fn import_types(
    pieces: Seq<Seq<char>>,
    l: LocationModel,
    i: int,
    acc: Seq<Seq<char>>,
) -> Result<Seq<Seq<char>>, ErrorModel>
    decreases pieces.len() - i,
{
    if i < 0 || i >= pieces.len() {
        Ok(acc)
    } else {
        let p = trim(pieces[i]);
        if p.len() == 0 {
            import_types(pieces, l, i + 1, acc)
        } else {
            match first_illegal(p) {
                Some(c) => Err(illegal(l, c)),
                None => import_types(pieces, l, i + 1, acc.push(p)),
            }
        }
    }
}

pub open spec fn is_brace_list(list: Seq<char>) -> bool {
    list.len() >= 2 && list[0] == '{' && list.last() == '}'
}

/// An import line `from "path" use {A, B}` or `from "path" use *` (line `n`, text `t`).
#[verifier::opaque]
pub open spec fn import_spec(code: Seq<char>, n: int, t: Seq<char>) -> Result<
    ImportModel,
    ErrorModel,
> {
    let ws = words_from(t, 0);
    if ws.len() == 0 || ws[0].1 != "from"@ {
        Err(import_err(code, n, 0, "import must start with `from`"@))
    } else if ws.len() < 2 {
        Err(import_err(code, n, 0, "missing import path"@))
    } else if ws[1].1[0] != '"' {
        Err(import_err(code, n, 0, "import path must start with a double-quotation mark"@))
    } else {
        match path_end(ws, 1) {
            None => Err(import_err(code, n, 0, "malformed import path"@)),
            Some(j) => match find(t, '"') {
                None => Err(
                    import_err(code, n, byte_offset(t, ws[1].0) as int, "malformed import path"@),
                ),
                Some(q) => {
                    let path = quoted_after(t, q);
                    if j >= ws.len() {
                        Err(import_err(code, n, 0, "missing `use` keyword"@))
                    } else if ws[j].1 != "use"@ {
                        Err(
                            import_err(
                                code,
                                n,
                                byte_offset(t, ws[j].0) as int,
                                "expected `use` but found "@ + ticked(ws[j].1),
                            ),
                        )
                    } else {
                        let ls = ws[j].0 + 3;
                        let lcol = byte_offset(t, ls) as int;
                        let list = trim(t.skip(ls));
                        if list == "*"@ {
                            Ok(
                                ImportModel {
                                    path,
                                    import_all: true,
                                    types: Seq::empty(),
                                    defined_at: loc(code, n, 0),
                                },
                            )
                        } else if !is_brace_list(list) {
                            Err(import_err(code, n, lcol, "expected `{...}` type list or `*`"@))
                        } else {
                            match import_types(
                                comma_split_from(list.subrange(1, list.len() - 1), 0),
                                loc(code, n, lcol),
                                0,
                                Seq::empty(),
                            ) {
                                Err(e) => Err(e),
                                Ok(ts) => if ts.len() == 0 {
                                    Err(
                                        import_err(
                                            code,
                                            n,
                                            brace_column(t),
                                            "import list may not be empty"@,
                                        ),
                                    )
                                } else {
                                    Ok(
                                        ImportModel {
                                            path,
                                            import_all: false,
                                            types: ts,
                                            defined_at: loc(code, n, 0),
                                        },
                                    )
                                },
                            }
                        }
                    }
                },
            },
        }
    }
}

// ---------------------------------------------------------------------------
// Modules
// ---------------------------------------------------------------------------
/// Parses the lines from `i` on, given whether a declaration was already seen and the
/// imports and declarations collected so far.
pub open spec fn module_from(
    code: Seq<char>,
    lines: Seq<Seq<char>>,
    i: int,
    saw: bool,
    imps: Seq<ImportModel>,
    defs: Seq<TypeModel>,
) -> Result<(Seq<ImportModel>, Seq<TypeModel>), ErrorModel>
    decreases lines.len() - i, 1int,
{
    match next_line(lines, i) {
        None => Ok((imps, defs)),
        Some(k) => {
            proof {
                lemma_next_line(lines, i);
            }
            module_line(code, lines, k, saw, imps, defs)
        },
    }
}

/// Parses from line `k`, which is not empty once cleaned.
pub open spec fn module_line(
    code: Seq<char>,
    lines: Seq<Seq<char>>,
    k: int,
    saw: bool,
    imps: Seq<ImportModel>,
    defs: Seq<TypeModel>,
) -> Result<(Seq<ImportModel>, Seq<TypeModel>), ErrorModel>
    decreases lines.len() - k, 0int,
{
    if k < 0 || k >= lines.len() {
        Ok((imps, defs))
    } else {
        let t = clean(lines[k]);
        let ws = words_from(t, 0);
        if ws.len() == 0 {
            module_from(code, lines, k + 1, saw, imps, defs)
        } else if ws[0].1 == "from"@ {
            if saw {
                Err(ErrorModel::ImportAfterDeclaration { line: loc(code, k, 0) })
            } else {
                match import_spec(code, k, t) {
                    Err(e) => Err(e),
                    Ok(im) => module_from(code, lines, k + 1, saw, imps.push(im), defs),
                }
            }
        } else if ws.len() < 2 {
            module_from(code, lines, k + 1, saw, imps, defs)
        } else if !is_decl_kind(ws[0].1) {
            Err(ErrorModel::UnsupportedDeclaration { line: loc(code, k, 0), decl_type: ws[0].1 })
        } else {
            match kind_spec(code, lines, k, ws[0].1, detail(t)) {
                Err(e) => Err(e),
                Ok(km) => match type_name_spec(loc(code, k, 0), ws[1].1) {
                    Err(e) => Err(e),
                    Ok(id) => {
                        proof {
                            lemma_member_block_end(lines, k + 1);
                        }
                        module_from(
                            code,
                            lines,
                            after_decl(lines, k, ws[0].1),
                            true,
                            imps,
                            defs.push(TypeModel { ident: id, defined_at: loc(code, k, 0), kind: km }),
                        )
                    },
                },
            }
        }
    }
}

pub proof fn lemma_module_from_step(
    code: Seq<char>,
    lines: Seq<Seq<char>>,
    i: int,
    saw: bool,
    imps: Seq<ImportModel>,
    defs: Seq<TypeModel>,
)
    ensures
        next_line(lines, i) is None ==> module_from(code, lines, i, saw, imps, defs) == Ok::<
            (Seq<ImportModel>, Seq<TypeModel>),
            ErrorModel,
        >((imps, defs)),
        next_line(lines, i) matches Some(k) ==> module_from(code, lines, i, saw, imps, defs)
            == module_line(code, lines, k, saw, imps, defs),
{

    match next_line(lines, i) {
        Some(k) => {
            assert(module_from(code, lines, i, saw, imps, defs) == module_line(
                code,
                lines,
                k,
                saw,
                imps,
                defs,
            ));
        },
        None => {},
    }
}

/// The module named `name` parsed from the text `src`.
pub open spec fn module_spec(name: Seq<char>, src: Seq<char>) -> Result<ModuleModel, ErrorModel> {
    match module_from(src, lines_of(src), 0, false, Seq::empty(), Seq::empty()) {
        Err(e) => Err(e),
        Ok((imports, definitions)) => Ok(ModuleModel { name, source: src, imports, definitions }),
    }
}


// ---------------------------------------------------------------------------
// Executable parsing of headers, bodies, imports and modules
// ---------------------------------------------------------------------------
pub open spec fn opt_view(o: Option<Vec<char>>) -> Option<Seq<char>> {
    match o {
        Some(v) => Some(v@),
        None => None,
    }
}

pub proof fn lemma_lines_fit(s: Seq<char>, i: int)
    requires
        fits(s),
        0 <= i,
    ensures
        forall|k: int| 0 <= k < lines_from(s, i).len() ==> fits(#[trigger] lines_from(s, i)[k]),
    decreases s.len() - i,
{
    if i < s.len() {
        lemma_find_from(s, '\n', i);
        match find_from(s, '\n', i) {
            Some(k) => {
                lemma_lines_fit(s, k + 1);
                lemma_fits_subrange(s, i, k);
                let l = s.subrange(i, k);
                if l.len() > 0 && l.last() == '\r' {
                    lemma_fits_subrange(l, 0, l.len() - 1);
                    assert(l.drop_last() =~= l.subrange(0, l.len() - 1));
                }
                let ls = lines_from(s, i);
                assert forall|m: int| 0 <= m < ls.len() implies fits(#[trigger] ls[m]) by {
                    if m > 0 {
                        assert(ls[m] == lines_from(s, k + 1)[m - 1]);
                    }
                }
            },
            None => {
                lemma_fits_subrange(s, i, s.len() as int);
            },
        }
    }
}

/// The detail after the first `:` of a header line, trimmed.
fn header_detail(t: &Vec<char>) -> (r: Option<Vec<char>>)
    ensures
        opt_view(r) == detail(t@),
{
    proof {
        lemma_find_from(t@, ':', 0);
    }
    let len = t.len();
    match find_char_from(t, ':', 0) {
        Some(q) => {
            let rest = slice_chars(t, q + 1, len);
            assert(rest@ =~= t@.skip(q + 1));
            Some(trim_chars(&rest))
        },
        None => None,
    }
}

fn import_error(code: &SourceCode, n: usize, column: usize, reason: String) -> (r: IntermediateError)
    ensures
        r@ == import_err(code@, n as int, column as int, reason@),
{
    IntermediateError::InvalidImport { line: code.location(n, column), reason }
}

fn no_default_error(at: SourceLocation, what: &str) -> (r: IntermediateError)
    ensures
        r@ == no_default(at@, what@),
{
    IntermediateError::MalformedMember {
        position: at,
        reason: concat(what, " declarations do not support default members"),
    }
}

fn ends_with_quote(w: &Vec<char>) -> (b: bool)
    ensures
        b == ends_quote(w@),
{
    w.len() > 0 && w[w.len() - 1] == '"'
}

/// Parses a `from <path> use {Type, ...}` or `from <path> use *` import line.
fn parse_import_line(code: &SourceCode, line: usize, text: &Vec<char>) -> (r: Result<
    Import,
    IntermediateError,
>)
    requires
        fits(text@),
    ensures
        match import_spec(code@, line as int, text@) {
            Ok(m) => (r matches Ok(x) && x@ == m),
            Err(e) => (r matches Err(x) && x@ == e),
        },
{
    proof {
        reveal(import_spec);
    }
    let ghost t = text@;
    let ws = split_words_at_chars(text);
    let ghost w = words_from(t, 0);
    proof {
        lemma_words_from(t, 0);
        lemma_fits_byte_offset(t);
    }
    assert(forall|m: int| 0 <= m < ws@.len() ==> w[m] == (#[trigger] ws@[m].0 as int, ws@[m].1@));
    if ws.len() == 0 || !word_is(&ws[0].1, "from") {
        return Err(import_error(code, line, 0, "import must start with `from`".to_string()));
    }
    if ws.len() < 2 {
        return Err(import_error(code, line, 0, "missing import path".to_string()));
    }
    assert(w[1] == (ws@[1].0 as int, ws@[1].1@));
    if ws[1].1[0] != '"' {
        return Err(
            import_error(
                code,
                line,
                0,
                "import path must start with a double-quotation mark".to_string(),
            ),
        );
    }
    let mut j: usize = 1;
    while j < ws.len() && !ends_with_quote(&ws[j].1)
        invariant
            1 <= j <= ws@.len(),
            w == char_words_model(ws@),
            path_end(w, 1) == path_end(w, j as int),
        decreases ws.len() - j,
    {
        assert(w[j as int] == (ws@[j as int].0 as int, ws@[j as int].1@));
        j = j + 1;
    }
    if j >= ws.len() {
        return Err(import_error(code, line, 0, "malformed import path".to_string()));
    }
    assert(w[j as int] == (ws@[j as int].0 as int, ws@[j as int].1@));
    let j = j + 1;
    proof {
        lemma_find_from(t, '"', 0);
    }
    let q = match find_char_from(text, '"', 0) {
        Some(q) => q,
        None => {
            let col = byte_offset_of(text, ws[1].0);
            return Err(import_error(code, line, col, "malformed import path".to_string()));
        },
    };
    proof {
        lemma_find_from(t, '"', 0);
    }
    let len = text.len();
    let rest = slice_chars(text, q + 1, len);
    assert(rest@ =~= t.skip(q + 1));
    proof {
        lemma_find_from(rest@, '"', 0);
    }
    let path = match find_char_from(&rest, '"', 0) {
        Some(q2) => {
            let p = slice_chars(&rest, 0, q2);
            assert(p@ =~= rest@.take(q2 as int));
            p
        },
        None => rest,
    };
    assert(path@ == quoted_after(t, q as int));
    if j >= ws.len() {
        return Err(import_error(code, line, 0, "missing `use` keyword".to_string()));
    }
    assert(w[j as int] == (ws@[j as int].0 as int, ws@[j as int].1@));
    if !word_is(&ws[j].1, "use") {
        let col = byte_offset_of(text, ws[j].0);
        let reason = concat("expected `use` but found ", ticked_string(&ws[j].1).as_str());
        return Err(import_error(code, line, col, reason));
    }
    proof {
        reveal_strlit("use");
    }
    let ls = ws[j].0 + 3;
    let lcol = byte_offset_of(text, ls);
    let tail = slice_chars(text, ls, text.len());
    assert(tail@ =~= t.skip(ls as int));
    let list = trim_chars(&tail);
    if word_is(&list, "*") {
        let r = Import {
            path: string_from_chars(&path),
            import_all: true,
            types: Vec::new(),
            defined_at: code.location(line, 0),
        };
        assert(r@.types =~= Seq::<Seq<char>>::empty());
        return Ok(r);
    }
    if !(list.len() >= 2 && list[0] == '{' && list[list.len() - 1] == '}') {
        return Err(
            import_error(code, line, lcol, "expected `{...}` type list or `*`".to_string()),
        );
    }
    let inner = slice_chars(&list, 1, list.len() - 1);
    let pieces = split_commas(&inner);
    let ghost ps = pieces@.map_values(|p: Vec<char>| p@);
    let ghost l = loc(code@, line as int, lcol as int);
    let mut types: Vec<TypeName> = Vec::new();
    let mut i: usize = 0;
    assert(type_names_model(types@) =~= Seq::<Seq<char>>::empty());
    assert(forall|e: ErrorModel|
        import_types(ps, l, 0, Seq::empty()) == Err::<Seq<Seq<char>>, ErrorModel>(e)
            ==> #[trigger] import_spec(code@, line as int, t) == Err::<ImportModel, ErrorModel>(
            e,
        ));
    while i < pieces.len()
        invariant
            forall|e: ErrorModel|
                import_types(ps, l, 0, Seq::empty()) == Err::<Seq<Seq<char>>, ErrorModel>(e)
                    ==> #[trigger] import_spec(code@, line as int, t) == Err::<
                    ImportModel,
                    ErrorModel,
                >(e),
            t == text@,
            i <= pieces@.len(),
            ps == pieces@.map_values(|p: Vec<char>| p@),
            ps == comma_split_from(list@.subrange(1, list@.len() - 1), 0),
            l == loc(code@, line as int, lcol as int),
            import_types(ps, l, 0, Seq::empty()) == import_types(
                ps,
                l,
                i as int,
                type_names_model(types@),
            ),
        decreases pieces.len() - i,
    {
        assert(ps[i as int] == pieces@[i as int]@);
        let p = trim_chars(&pieces[i]);
        if p.len() > 0 {
            let tn = match TypeName::from_chars(code.location(line, lcol), &p) {
                Ok(tn) => tn,
                Err(e) => {
                    assert(import_types(ps, l, i as int, type_names_model(types@)) == Err::<
                        Seq<Seq<char>>,
                        ErrorModel,
                    >(e@));
                    assert(import_types(ps, l, 0, Seq::empty()) == Err::<
                        Seq<Seq<char>>,
                        ErrorModel,
                    >(e@));
                    return Err(e);
                },
            };
            let ghost before = type_names_model(types@);
            types.push(tn);
            assert(type_names_model(types@) =~= before.push(p@));
        }
        i = i + 1;
    }
    if types.len() == 0 {
        proof {
            lemma_find_from(t, '{', 0);
        }
        let b = match find_char_from(text, '{', 0) {
            Some(b) => byte_offset_of(text, b),
            None => 0,
        };
        return Err(import_error(code, line, b, "import list may not be empty".to_string()));
    }
    Ok(
        Import {
            path: string_from_chars(&path),
            import_all: false,
            types,
            defined_at: code.location(line, 0),
        },
    )
}


pub open spec fn kind_result(
    r: Result<TypeKind, IntermediateError>,
    spec: Result<KindModel, ErrorModel>,
) -> bool {
    match spec {
        Ok(km) => (r matches Ok(x) && x@ == km),
        Err(e) => (r matches Err(x) && x@ == e),
    }
}

impl Reader {
    /// Creates a line-oriented reader over the module source.
    fn new(source: &String) -> (r: Reader)
        ensures
            r.wf(),
            r.code@ == source@,
            r.next == 0,
    {
        let bytes = source.as_str().as_bytes();
        let nbytes = bytes.len();
        assert(fits(source@));
        let chars = chars_of(source.as_str());
        let lines = split_lines(&chars);
        let nlines = lines.len();
        let r = Reader { code: SourceCode(Arc::new(source.clone())), lines, next: 0 };
        assert(r.code@ == source@);
        proof {
            lemma_lines_fit(source@, 0);
            assert(r.lines() =~= lines_of(source@));
            assert forall|k: int| 0 <= k < r.lines@.len() implies fits(#[trigger] r.lines@[k]@) by {
                assert(r.lines@[k]@ == lines_from(source@, 0)[k]);
            }
        }
        r
    }

    /// Moves to the next line that is not empty once cleaned and returns its index.
    fn next_line(&mut self) -> (r: Option<usize>)
        requires
            old(self).wf(),
        ensures
            final(self).wf(),
            final(self).code == old(self).code,
            final(self).lines == old(self).lines,
            match next_line(old(self).lines(), old(self).next as int) {
                Some(k) => r == Some(k as usize) && final(self).next == k + 1,
                None => r is None,
            },
    {
        let ghost lines = self.lines();
        let len = self.lines.len();
        while self.next < len
            invariant
                self.wf(),
                len == self.lines@.len(),
                self.code == old(self).code,
                self.lines == old(self).lines,
                lines == self.lines(),
                old(self).next <= self.next <= len,
                next_line(lines, old(self).next as int) == next_line(lines, self.next as int),
            decreases len - self.next,
        {
            let k = self.next;
            let t = self.clean_line(k);
            self.next = k + 1;
            if t.len() > 0 {
                return Some(k);
            }
        }
        None
    }

    /// Parses an `alias` declaration body.
    fn parse_alias(&self, extra: &Option<Vec<char>>, line: usize) -> (r: Result<
        TypeKind,
        IntermediateError,
    >)
        ensures
            kind_result(r, alias_spec(self.code@, line as int, opt_view(*extra))),
    {
        match extra {
            None => Err(
                IntermediateError::MissingDeclarationDetail {
                    line: self.code.location(line, 0),
                    kind: "Alias",
                },
            ),
            Some(e) => {
                let other = TypeName::from_chars(self.code.location(line, 0), &trim_chars(e))?;
                Ok(TypeKind::Alias(Alias { other }))
            },
        }
    }

    /// Parses a `pack` declaration body.
    fn parse_pack(&mut self, line: usize) -> (r: Result<TypeKind, IntermediateError>)
        requires
            old(self).wf(),
            old(self).next == line + 1,
        ensures
            final(self).wf(),
            final(self).code == old(self).code,
            final(self).lines == old(self).lines,
            r is Ok ==> final(self).next == member_block_end(old(self).lines(), line + 1),
            kind_result(r, pack_spec(old(self).code@, old(self).lines(), line as int)),
    {
        let (members, default) = self.struct_members()?;
        if let Some(member) = default {
            return Err(no_default_error(member.defined_at, "pack"));
        }
        Ok(TypeKind::Pack(Pack { members }))
    }

    /// Parses a `seq` declaration body.
    fn parse_seq(&mut self, line: usize) -> (r: Result<TypeKind, IntermediateError>)
        requires
            old(self).wf(),
            old(self).next == line + 1,
        ensures
            final(self).wf(),
            final(self).code == old(self).code,
            final(self).lines == old(self).lines,
            r is Ok ==> final(self).next == member_block_end(old(self).lines(), line + 1),
            kind_result(r, seq_spec(old(self).code@, old(self).lines(), line as int)),
    {
        let (members, default) = self.struct_members()?;
        if let Some(member) = default {
            return Err(no_default_error(member.defined_at, "sequence"));
        }
        Ok(TypeKind::Sequence(Sequence { members }))
    }

    /// Parses an `enum` declaration body.
    fn parse_enum(&mut self, extra: &Option<Vec<char>>, line: usize) -> (r: Result<
        TypeKind,
        IntermediateError,
    >)
        requires
            old(self).wf(),
            old(self).next == line + 1,
        ensures
            final(self).wf(),
            final(self).code == old(self).code,
            final(self).lines == old(self).lines,
            r is Ok ==> final(self).next == member_block_end(old(self).lines(), line + 1),
            kind_result(
                r,
                enum_spec(old(self).code@, old(self).lines(), line as int, opt_view(*extra)),
            ),
    {
        let e = match extra {
            None => {
                return Err(
                    IntermediateError::MissingDeclarationDetail {
                        line: self.code.location(line, 0),
                        kind: "enum",
                    },
                );
            },
            Some(e) => e,
        };
        let ty = TypeName::from_chars(self.code.location(line, 0), e)?;
        let (members, default) = self.enum_members()?;
        Ok(TypeKind::Enum(Enum { ty, members, default }))
    }

    /// Parses a `bits` (bitfield) declaration body.
    fn parse_bitfld(&mut self, extra: &Option<Vec<char>>, line: usize) -> (r: Result<
        TypeKind,
        IntermediateError,
    >)
        requires
            old(self).wf(),
            old(self).next == line + 1,
        ensures
            final(self).wf(),
            final(self).code == old(self).code,
            final(self).lines == old(self).lines,
            r is Ok ==> final(self).next == member_block_end(old(self).lines(), line + 1),
            kind_result(
                r,
                bits_spec(old(self).code@, old(self).lines(), line as int, opt_view(*extra)),
            ),
    {
        let e = match extra {
            None => {
                return Err(
                    IntermediateError::MissingDeclarationDetail {
                        line: self.code.location(line, 0),
                        kind: "bits",
                    },
                );
            },
            Some(e) => e,
        };
        let ty = TypeName::from_chars(self.code.location(line, 0), e)?;
        let (members, default) = self.bitfld_members()?;
        if let Some(member) = default {
            return Err(no_default_error(member.defined_at, "bitfield"));
        }
        Ok(TypeKind::Bitfld(Bitfld { ty, members }))
    }

    /// Parses a `variant` declaration body.
    fn parse_variant(&mut self, extra: &Option<Vec<char>>, line: usize) -> (r: Result<
        TypeKind,
        IntermediateError,
    >)
        requires
            old(self).wf(),
            old(self).next == line + 1,
        ensures
            final(self).wf(),
            final(self).code == old(self).code,
            final(self).lines == old(self).lines,
            r is Ok ==> final(self).next == member_block_end(old(self).lines(), line + 1),
            kind_result(
                r,
                variant_spec(old(self).code@, old(self).lines(), line as int, opt_view(*extra)),
            ),
    {
        let e = match extra {
            None => {
                return Err(
                    IntermediateError::MissingDeclarationDetail {
                        line: self.code.location(line, 0),
                        kind: "variant",
                    },
                );
            },
            Some(e) => e,
        };
        let ty = TypeName::from_chars(self.code.location(line, 0), e)?;
        let (members, default) = self.variant_members()?;
        if let Some(member) = default {
            return Err(no_default_error(member.defined_at, "variant"));
        }
        Ok(TypeKind::Variant(Variant { ty, members }))
    }

    /// Parses a `fixed_array` declaration body (`count * Element`).
    fn parse_fixed_array(&self, extra: &Option<Vec<char>>, line: usize) -> (r: Result<
        TypeKind,
        IntermediateError,
    >)
        ensures
            kind_result(r, fixed_array_spec(self.code@, line as int, opt_view(*extra))),
    {
        let e = match extra {
            None => {
                return Err(
                    IntermediateError::MissingDeclarationDetail {
                        line: self.code.location(line, 0),
                        kind: "fixed_array",
                    },
                );
            },
            Some(e) => e,
        };
        proof {
            lemma_find_from(e@, '*', 0);
        }
        let len = e.len();
        let s = match find_char_from(e, '*', 0) {
            None => {
                return Err(IntermediateError::InvalidArraySpec { line: self.code.location(line, 0) });
            },
            Some(s) => s,
        };
        let head = slice_chars(e, 0, s);
        assert(head@ =~= e@.take(s as int));
        let count_str = trim_chars(&head);
        let count = match parse_u64(&count_str) {
            Ok(c) => c,
            Err(kind) => {
                return Err(
                    IntermediateError::InvalidNumber {
                        position: self.code.location(line, 0),
                        value: string_from_chars(&count_str),
                        source: kind,
                    },
                );
            },
        };
        let tail = slice_chars(e, s + 1, len);
        assert(tail@ =~= e@.skip(s + 1));
        let value_type = TypeName::from_chars(self.code.location(line, 0), &trim_chars(&tail))?;
        Ok(TypeKind::FixedArray(FixedArray { count, value_type }))
    }

    /// Parses a `dyn_array` declaration body (`Size * Element`).
    fn parse_dyn_array(&self, extra: &Option<Vec<char>>, line: usize) -> (r: Result<
        TypeKind,
        IntermediateError,
    >)
        ensures
            kind_result(r, dyn_array_spec(self.code@, line as int, opt_view(*extra))),
    {
        let e = match extra {
            None => {
                return Err(
                    IntermediateError::MissingDeclarationDetail {
                        line: self.code.location(line, 0),
                        kind: "dyn_array",
                    },
                );
            },
            Some(e) => e,
        };
        proof {
            lemma_find_from(e@, '*', 0);
        }
        let len = e.len();
        let s = match find_char_from(e, '*', 0) {
            None => {
                return Err(IntermediateError::InvalidArraySpec { line: self.code.location(line, 0) });
            },
            Some(s) => s,
        };
        let head = slice_chars(e, 0, s);
        assert(head@ =~= e@.take(s as int));
        let size_type = TypeName::from_chars(self.code.location(line, 0), &trim_chars(&head))?;
        let tail = slice_chars(e, s + 1, len);
        assert(tail@ =~= e@.skip(s + 1));
        let value_type = TypeName::from_chars(self.code.location(line, 0), &trim_chars(&tail))?;
        Ok(TypeKind::DynamicArray(DynamicArray { size_type, value_type }))
    }

    /// Parses a `const` declaration body (`Type = value`).
    fn parse_const(&self, extra: &Option<Vec<char>>, line: usize) -> (r: Result<
        TypeKind,
        IntermediateError,
    >)
        ensures
            kind_result(r, const_spec(self.code@, line as int, opt_view(*extra))),
    {
        let e = match extra {
            None => {
                return Err(
                    IntermediateError::MissingDeclarationDetail {
                        line: self.code.location(line, 0),
                        kind: "const",
                    },
                );
            },
            Some(e) => e,
        };
        proof {
            lemma_find_from(e@, '=', 0);
        }
        let len = e.len();
        let s = match find_char_from(e, '=', 0) {
            None => {
                return Err(
                    IntermediateError::MissingDeclarationDetail {
                        line: self.code.location(line, 0),
                        kind: "const value",
                    },
                );
            },
            Some(s) => s,
        };
        let head = slice_chars(e, 0, s);
        assert(head@ =~= e@.take(s as int));
        let ty = TypeName::from_chars(self.code.location(line, 0), &trim_chars(&head))?;
        let tail = slice_chars(e, s + 1, len);
        assert(tail@ =~= e@.skip(s + 1));
        let value_str = trim_chars(&tail);
        let value = match parse_i64(&value_str) {
            Ok(v) => v,
            Err(kind) => {
                return Err(
                    IntermediateError::InvalidNumber {
                        position: self.code.location(line, 0),
                        value: string_from_chars(&value_str),
                        source: kind,
                    },
                );
            },
        };
        Ok(TypeKind::Const(Const { ty, value }))
    }
}


impl Reader {
    /// Parses the body of a declaration of kind `kw` whose header is line `line`.
    #[verifier::spinoff_prover]
    fn parse_kind(&mut self, kw: &Vec<char>, extra: &Option<Vec<char>>, line: usize) -> (r:
        Result<TypeKind, IntermediateError>)
        requires
            old(self).wf(),
            old(self).next == line + 1,
        ensures
            final(self).wf(),
            final(self).code == old(self).code,
            final(self).lines == old(self).lines,
            r is Ok ==> is_decl_kind(kw@) && final(self).next == after_decl(
                old(self).lines(),
                line as int,
                kw@,
            ),
            !is_decl_kind(kw@) ==> (r matches Err(x) && x@ == ErrorModel::UnsupportedDeclaration {
                line: loc(old(self).code@, line as int, 0),
                decl_type: kw@,
            }),
            is_decl_kind(kw@) ==> kind_result(
                r,
                kind_spec(old(self).code@, old(self).lines(), line as int, kw@, opt_view(*extra)),
            ),
    {
        proof {
            reveal(kind_spec);
            reveal_strlit("alias");
            reveal_strlit("pack");
            reveal_strlit("seq");
            reveal_strlit("enum");
            reveal_strlit("bits");
            reveal_strlit("variant");
            reveal_strlit("fixed_array");
            reveal_strlit("dyn_array");
            reveal_strlit("const");
            assert("const"@ != "alias"@) by {
                assert("const"@[0] != "alias"@[0]);
            }
            assert(!has_members("const"@)) by {
                assert("const"@.len() != "pack"@.len());
                assert("const"@.len() != "seq"@.len());
                assert("const"@.len() != "variant"@.len());
            }
            assert(!has_members("alias"@)) by {
                assert("alias"@.len() != "pack"@.len());
                assert("alias"@.len() != "seq"@.len());
                assert("alias"@.len() != "variant"@.len());
            }
            assert(!has_members("fixed_array"@)) by {
                assert("fixed_array"@.len() != "pack"@.len());
                assert("fixed_array"@.len() != "seq"@.len());
                assert("fixed_array"@.len() != "variant"@.len());
            }
            assert(!has_members("dyn_array"@)) by {
                assert("dyn_array"@.len() != "pack"@.len());
                assert("dyn_array"@.len() != "seq"@.len());
                assert("dyn_array"@.len() != "variant"@.len());
            }
            assert("const"@ != "fixed_array"@ && "const"@ != "dyn_array"@) by {
                assert("const"@.len() != "fixed_array"@.len());
                assert("const"@.len() != "dyn_array"@.len());
            }
        }
        if word_is(kw, "alias") {
            let r = self.parse_alias(extra, line);
            assert(after_decl(old(self).lines(), line as int, kw@) == line + 1);
            r
        } else if word_is(kw, "pack") {
            self.parse_pack(line)
        } else if word_is(kw, "seq") {
            self.parse_seq(line)
        } else if word_is(kw, "enum") {
            self.parse_enum(extra, line)
        } else if word_is(kw, "bits") {
            self.parse_bitfld(extra, line)
        } else if word_is(kw, "variant") {
            self.parse_variant(extra, line)
        } else if word_is(kw, "fixed_array") {
            let r = self.parse_fixed_array(extra, line);
            assert(after_decl(old(self).lines(), line as int, kw@) == line + 1);
            r
        } else if word_is(kw, "dyn_array") {
            let r = self.parse_dyn_array(extra, line);
            assert(after_decl(old(self).lines(), line as int, kw@) == line + 1);
            r
        } else if word_is(kw, "const") {
            let r = self.parse_const(extra, line);
            assert(is_decl_kind(kw@));
            assert(after_decl(old(self).lines(), line as int, kw@) == line + 1);
            r
        } else {
            Err(
                IntermediateError::UnsupportedDeclaration {
                    line: self.code.location(line, 0),
                    decl_type: string_from_chars(kw),
                },
            )
        }
    }
}

/// Handles header line `k`, the next line that is not empty once cleaned.
fn parse_line(
    reader: &mut Reader,
    k: usize,
    saw: &mut bool,
    imports: &mut Vec<Import>,
    definitions: &mut Vec<Type>,
) -> (r: Result<(), IntermediateError>)
    requires
        old(reader).wf(),
        old(reader).next == k + 1,
        k < old(reader).lines@.len(),
    ensures
        final(reader).wf(),
        final(reader).code == old(reader).code,
        final(reader).lines == old(reader).lines,
        r is Ok ==> k < final(reader).next <= old(reader).lines@.len(),
        match r {
            Ok(()) => module_line(
                old(reader).code@,
                old(reader).lines(),
                k as int,
                *old(saw),
                imports_model(old(imports)@),
                types_model(old(definitions)@),
            ) == module_from(
                old(reader).code@,
                old(reader).lines(),
                final(reader).next as int,
                *final(saw),
                imports_model(final(imports)@),
                types_model(final(definitions)@),
            ),
            Err(e) => module_line(
                old(reader).code@,
                old(reader).lines(),
                k as int,
                *old(saw),
                imports_model(old(imports)@),
                types_model(old(definitions)@),
            ) == Err::<(Seq<ImportModel>, Seq<TypeModel>), ErrorModel>(e@),
        },
{
    let ghost code = reader.code@;
    let ghost lines = reader.lines();
    let ghost imps = imports_model(imports@);
    let ghost defs = types_model(definitions@);
    proof {

    }
    let t = reader.clean_line(k);
    let ws = split_words_at_chars(&t);
    let ghost w = words_from(t@, 0);
    assert(forall|m: int| 0 <= m < ws@.len() ==> w[m] == (#[trigger] ws@[m].0 as int, ws@[m].1@));
    if ws.len() == 0 {
        assert(w.len() == 0);
        assert(module_line(code, lines, k as int, *saw, imps, defs) == module_from(
            code,
            lines,
            k as int + 1,
            *saw,
            imps,
            defs,
        ));
        return Ok(());
    }
    assert(w[0] == (ws@[0].0 as int, ws@[0].1@));
    if word_is(&ws[0].1, "from") {
        if *saw {
            return Err(IntermediateError::ImportAfterDeclaration { line: reader.code.location(k, 0) });
        }
        let import = parse_import_line(&reader.code, k, &t)?;
        imports.push(import);
        assert(imports_model(imports@) =~= imps.push(import@));
        return Ok(());
    }
    if ws.len() < 2 {
        return Ok(());
    }
    assert(w[1] == (ws@[1].0 as int, ws@[1].1@));
    let defined_at = reader.code.location(k, 0);
    let extra = header_detail(&t);
    let kind = reader.parse_kind(&ws[0].1, &extra, k)?;
    let ident = TypeName::from_chars(defined_at.clone(), &ws[1].1)?;
    *saw = true;
    let ty = Type { ident, defined_at, kind };
    definitions.push(ty);
    assert(types_model(definitions@) =~= defs.push(ty@));
    proof {
        lemma_member_block_end(lines, k + 1);
    }
    Ok(())
}

impl Module {
    /// Parses a module from its source text: imports first, then declarations.
    pub fn from_string(name: String, source: String) -> (r: Result<Self, IntermediateError>)
        ensures
            match module_spec(name@, source@) {
                Ok(m) => (r matches Ok(x) && x@ == m),
                Err(e) => (r matches Err(x) && x@ == e),
            },
    {
        let mut reader = Reader::new(&source);
        let ghost code = source@;
        let ghost lines = reader.lines();
        let mut imports: Vec<Import> = Vec::new();
        let mut definitions: Vec<Type> = Vec::new();
        let mut saw_declaration = false;
        assert(imports_model(imports@) =~= Seq::<ImportModel>::empty());
        assert(types_model(definitions@) =~= Seq::<TypeModel>::empty());
        loop
            invariant_except_break
                module_from(code, lines, 0, false, Seq::empty(), Seq::empty()) == module_from(
                    code,
                    lines,
                    reader.next as int,
                    saw_declaration,
                    imports_model(imports@),
                    types_model(definitions@),
                ),
            invariant
                reader.wf(),
                reader.code@ == code,
                reader.lines() == lines,
                lines == lines_of(code),
                code == source@,
            ensures
                module_from(code, lines, 0, false, Seq::empty(), Seq::empty()) == Ok::<
                    (Seq<ImportModel>, Seq<TypeModel>),
                    ErrorModel,
                >((imports_model(imports@), types_model(definitions@))),
            decreases lines.len() - reader.next,
        {
            let ghost i = reader.next as int;
            let k = match reader.next_line() {
                None => {
                    proof {
                        lemma_module_from_step(
                            code,
                            lines,
                            i,
                            saw_declaration,
                            imports_model(imports@),
                            types_model(definitions@),
                        );
                    }
                    break;
                },
                Some(k) => k,
            };
            proof {
                lemma_next_line(lines, i);
                lemma_module_from_step(
                    code,
                    lines,
                    i,
                    saw_declaration,
                    imports_model(imports@),
                    types_model(definitions@),
                );
            }
            match parse_line(&mut reader, k, &mut saw_declaration, &mut imports, &mut definitions) {
                Ok(()) => {},
                Err(e) => {
                    return Err(e);
                },
            }
        }
        Ok(Module { name, source, imports, definitions })
    }
}

} // verus!
