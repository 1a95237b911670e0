//! Tokenizer for the `.jaw` DSL.
//!
//! - Skips trivia (spaces, tabs, carriage returns) and `#` line comments.
//! - Emits `Newline` tokens for `\n` and a final `EndOfFile` token.
//! - Recognizes keywords, identifiers, integer literals, string literals,
//!   symbols, and the fat arrow (`=>`).
//! - A leading minus is its own symbol; negative numbers are left to the parser.
//!
//! Positions are byte offsets into the source. The position of the lexer is the
//! offset of the last character it consumed (0 before the first one), and a span
//! runs from the position before a token to the position after it.
use vstd::prelude::*;
use vstd::utf8::encode_utf8;

use crate::text::{
    byte_offset, char_width, chars_of, decimal, digit_value, usize_to_string, digits_value, is_alpha, is_ascii_alphabetic,
    is_ascii_digit, is_digit, lemma_byte_offset_bound, lemma_byte_offset_step, push_char,
    string_from_chars,
};

verus! {

/// Byte offset within the source text.
#[derive(Debug, Clone, Copy, PartialEq, Eq, Structural)]
pub struct Position {
    pub offset: usize,
}

impl Default for Position {
    fn default() -> (r: Position)
        ensures
            r.offset == 0,
    {
        Position { offset: 0 }
    }
}

/// A span in the source, or the marker for built-in definitions.
#[derive(Debug, Clone, Copy, PartialEq, Eq, Structural)]
pub enum Span {
    Builtin,
    Source(Position, Position),
}

impl Default for Span {
    fn default() -> (r: Span)
        ensures
            r == Span::Builtin,
    {
        Span::Builtin
    }
}

/// The span covering `a` then `b`; built-in spans are neutral.
pub open spec fn span_union(a: Span, b: Span) -> Span {
    match (a, b) {
        (Span::Builtin, Span::Builtin) => Span::Builtin,
        (Span::Builtin, x) => x,
        (x, Span::Builtin) => x,
        (Span::Source(s1, _), Span::Source(_, e2)) => Span::Source(s1, e2),
    }
}

/// How a position is written in messages: `(offset N)`.
pub open spec fn position_text(p: Position) -> Seq<char> {
    "(offset "@ + decimal(p.offset as nat) + ")"@
}

/// How a span is written in messages.
pub open spec fn span_text(s: Span) -> Seq<char> {
    match s {
        Span::Builtin => "(builtin)"@,
        Span::Source(a, b) => "(from "@ + position_text(a) + ", to "@ + position_text(b) + ")"@,
    }
}

impl Position {
    /// The text of the position as messages show it.
    pub fn text(&self) -> (r: String)
        ensures
            r@ == position_text(*self),
    {
        let mut r = "(offset ".to_string();
        let n = usize_to_string(self.offset);
        r.append(n.as_str());
        r.append(")");
        r
    }
}

impl Span {
    /// The text of the span as messages show it.
    pub fn text(&self) -> (r: String)
        ensures
            r@ == span_text(*self),
    {
        match self {
            Span::Builtin => "(builtin)".to_string(),
            Span::Source(a, b) => {
                let mut r = "(from ".to_string();
                let at = a.text();
                r.append(at.as_str());
                r.append(", to ");
                let bt = b.text();
                r.append(bt.as_str());
                r.append(")");
                assert(r@ =~= span_text(*self));
                r
            },
        }
    }

    /// Merges two spans into one that covers from the start of `self`
    /// to the end of `other`. Builtin spans are ignored.
    pub fn union(&self, other: &Span) -> (r: Span)
        ensures
            r == span_union(*self, *other),
    {
        match (self, other) {
            (Span::Builtin, Span::Builtin) => Span::Builtin,
            (Span::Builtin, x) => *x,
            (x, Span::Builtin) => *x,
            (Span::Source(s1, _), Span::Source(_, e2)) => Span::Source(*s1, *e2),
        }
    }
}

/// All reserved keywords in the language.
#[derive(Debug, Clone, Copy, PartialEq, Eq, Structural)]
pub enum Keyword {
    Pack,
    Enum,
    Bits,
    Variant,
    Sequence,
    Alias,
    Use,
    As,
}

/// Punctuation and single-character symbols.
#[derive(Debug, Clone, Copy, PartialEq, Eq, Structural)]
pub enum Symbol {
    Colon,
    Minus,
    Equals,
    LParen,
    RParen,
    LBracket,
    RBracket,
    LBrace,
    RBrace,
    Asterisk,
}

/// All token variants emitted by the lexer.
#[derive(Debug, Clone, PartialEq, Eq)]
pub enum TokenKind {
    Keyword(Keyword),
    Identifier(String),
    Number(u64),
    StringLiteral(String),
    Symbol(Symbol),
    FatArrow,
    Newline,
    EndOfFile,
}

/// Mathematical model of a token kind: strings become character sequences.
pub enum KindModel {
    Keyword(Keyword),
    Identifier(Seq<char>),
    Number(u64),
    StringLiteral(Seq<char>),
    Symbol(Symbol),
    FatArrow,
    Newline,
    EndOfFile,
}

impl View for TokenKind {
    type V = KindModel;

    open spec fn view(&self) -> KindModel {
        match self {
            TokenKind::Keyword(k) => KindModel::Keyword(*k),
            TokenKind::Identifier(s) => KindModel::Identifier(s@),
            TokenKind::Number(n) => KindModel::Number(*n),
            TokenKind::StringLiteral(s) => KindModel::StringLiteral(s@),
            TokenKind::Symbol(s) => KindModel::Symbol(*s),
            TokenKind::FatArrow => KindModel::FatArrow,
            TokenKind::Newline => KindModel::Newline,
            TokenKind::EndOfFile => KindModel::EndOfFile,
        }
    }
}

/// A token together with its span.
#[derive(Debug, Clone, PartialEq, Eq)]
pub struct Token {
    pub kind: TokenKind,
    pub span: Span,
}

pub struct TokenModel {
    pub kind: KindModel,
    pub span: Span,
}

impl View for Token {
    type V = TokenModel;

    open spec fn view(&self) -> TokenModel {
        TokenModel { kind: self.kind@, span: self.span }
    }
}

/// The models of a sequence of tokens.
pub open spec fn tokens_model(v: Seq<Token>) -> Seq<TokenModel> {
    v.map_values(|t: Token| t@)
}

/// Errors raised by the lexer, with a note and a location.
#[derive(Debug)]
pub enum LexError {
    LexErrLoc(String, Span),
}

pub struct LexErrorModel {
    pub message: Seq<char>,
    pub span: Span,
}

impl View for LexError {
    type V = LexErrorModel;

    open spec fn view(&self) -> LexErrorModel {
        match self {
            LexError::LexErrLoc(m, s) => LexErrorModel { message: m@, span: *s },
        }
    }
}

// ---------------------------------------------------------------------------
// The lexer as a function on the character sequence of the source.
// ---------------------------------------------------------------------------
/// Position of a lexer whose cursor stands before character `i`.
pub open spec fn pos_at(s: Seq<char>, i: int) -> Position {
    Position { offset: (if i <= 0 { 0 } else { byte_offset(s, i - 1) }) as usize }
}

pub open spec fn span_at(s: Seq<char>, i: int, j: int) -> Span {
    Span::Source(pos_at(s, i), pos_at(s, j))
}

pub open spec fn is_blank(c: char) -> bool {
    c == ' ' || c == '\t' || c == '\r'
}

pub open spec fn ident_start(c: char) -> bool {
    is_alpha(c) || c == '_'
}

pub open spec fn ident_continue(c: char) -> bool {
    ident_start(c) || is_digit(c)
}

/// Index of the first newline at or after `i` (or the end).
pub open spec fn line_end(s: Seq<char>, i: int) -> int
    decreases s.len() - i,
{
    if i >= s.len() || s[i] == '\n' {
        i
    } else {
        line_end(s, i + 1)
    }
}

/// Index of the first character at or after `i` that is not a digit.
pub open spec fn digits_end(s: Seq<char>, i: int) -> int
    decreases s.len() - i,
{
    if i < s.len() && is_digit(s[i]) {
        digits_end(s, i + 1)
    } else {
        i
    }
}

/// Index of the first character at or after `i` that cannot continue an identifier.
pub open spec fn ident_end(s: Seq<char>, i: int) -> int
    decreases s.len() - i,
{
    if i < s.len() && ident_continue(s[i]) {
        ident_end(s, i + 1)
    } else {
        i
    }
}

pub proof fn lemma_line_end(s: Seq<char>, i: int)
    requires
        0 <= i <= s.len(),
    ensures
        i <= line_end(s, i) <= s.len(),
        line_end(s, i) < s.len() ==> s[line_end(s, i)] == '\n',
        forall|k: int| i <= k < line_end(s, i) ==> s[k] != '\n',
    decreases s.len() - i,
{
    if i < s.len() && s[i] != '\n' {
        lemma_line_end(s, i + 1);
    }
}

pub proof fn lemma_digits_end(s: Seq<char>, i: int)
    requires
        0 <= i <= s.len(),
    ensures
        i <= digits_end(s, i) <= s.len(),
        digits_end(s, i) < s.len() ==> !is_digit(s[digits_end(s, i)]),
        forall|k: int| i <= k < digits_end(s, i) ==> is_digit(s[k]),
    decreases s.len() - i,
{
    if i < s.len() && is_digit(s[i]) {
        lemma_digits_end(s, i + 1);
    }
}

pub proof fn lemma_ident_end(s: Seq<char>, i: int)
    requires
        0 <= i <= s.len(),
    ensures
        i <= ident_end(s, i) <= s.len(),
        ident_end(s, i) < s.len() ==> !ident_continue(s[ident_end(s, i)]),
        forall|k: int| i <= k < ident_end(s, i) ==> ident_continue(s[k]),
    decreases s.len() - i,
{
    if i < s.len() && ident_continue(s[i]) {
        lemma_ident_end(s, i + 1);
    }
}

/// Index of the first character at or after `i` that is neither a blank nor part of a comment.
pub open spec fn trivia_end(s: Seq<char>, i: int) -> int
    decreases s.len() - i,
{
    if 0 <= i < s.len() && is_blank(s[i]) {
        trivia_end(s, i + 1)
    } else if 0 <= i < s.len() && s[i] == '#' {
        proof {
            lemma_line_end(s, i + 1);
        }
        trivia_end(s, line_end(s, i + 1))
    } else {
        i
    }
}

pub proof fn lemma_trivia_end(s: Seq<char>, i: int)
    requires
        0 <= i <= s.len(),
    ensures
        i <= trivia_end(s, i) <= s.len(),
        trivia_end(s, i) < s.len() ==> !is_blank(s[trivia_end(s, i)]) && s[trivia_end(s, i)]
            != '#',
    decreases s.len() - i,
{
    if 0 <= i < s.len() && is_blank(s[i]) {
        lemma_trivia_end(s, i + 1);
    } else if 0 <= i < s.len() && s[i] == '#' {
        lemma_line_end(s, i + 1);
        lemma_trivia_end(s, line_end(s, i + 1));
    }
}

pub open spec fn keyword_of(w: Seq<char>) -> Option<Keyword> {
    if w == seq!['p', 'a', 'c', 'k'] {
        Some(Keyword::Pack)
    } else if w == seq!['e', 'n', 'u', 'm'] {
        Some(Keyword::Enum)
    } else if w == seq!['b', 'i', 't', 's'] {
        Some(Keyword::Bits)
    } else if w == seq!['v', 'a', 'r', 'i', 'a', 'n', 't'] {
        Some(Keyword::Variant)
    } else if w == seq!['s', 'e', 'q'] {
        Some(Keyword::Sequence)
    } else if w == seq!['a', 'l', 'i', 'a', 's'] {
        Some(Keyword::Alias)
    } else if w == seq!['u', 's', 'e'] {
        Some(Keyword::Use)
    } else if w == seq!['a', 's'] {
        Some(Keyword::As)
    } else {
        None
    }
}

pub open spec fn word_kind(w: Seq<char>) -> KindModel {
    match keyword_of(w) {
        Some(k) => KindModel::Keyword(k),
        None => KindModel::Identifier(w),
    }
}

pub open spec fn symbol_of(c: char) -> Option<Symbol> {
    if c == ':' {
        Some(Symbol::Colon)
    } else if c == '-' {
        Some(Symbol::Minus)
    } else if c == '=' {
        Some(Symbol::Equals)
    } else if c == '(' {
        Some(Symbol::LParen)
    } else if c == ')' {
        Some(Symbol::RParen)
    } else if c == '[' {
        Some(Symbol::LBracket)
    } else if c == ']' {
        Some(Symbol::RBracket)
    } else if c == '{' {
        Some(Symbol::LBrace)
    } else if c == '}' {
        Some(Symbol::RBrace)
    } else if c == '*' {
        Some(Symbol::Asterisk)
    } else {
        None
    }
}

pub open spec fn msg_invalid_integer() -> Seq<char> {
    "invalid integer literal"@
}

pub open spec fn msg_multiline_string() -> Seq<char> {
    "string literal cannot span multiple lines"@
}

pub open spec fn msg_unterminated_escape() -> Seq<char> {
    "unterminated escape sequence"@
}

pub open spec fn msg_unsupported_escape() -> Seq<char> {
    "unsupported escape sequence"@
}

pub open spec fn msg_unterminated_string() -> Seq<char> {
    "unterminated string literal"@
}

pub open spec fn msg_unexpected_char(c: char) -> Seq<char> {
    "unexpected character '"@.push(c).push('\'')
}

/// Outcome of scanning the body of a string literal.
pub enum StrScan {
    /// The decoded literal and the index just after the closing quote.
    Done(Seq<char>, int),
    /// An error message and the cursor at which it was raised.
    Fail(Seq<char>, int),
}

/// Scans a string literal body starting at index `k`, having decoded `lit` so far.
pub open spec fn scan_string(s: Seq<char>, k: int, lit: Seq<char>) -> StrScan
    decreases s.len() - k,
{
    if k < 0 || k >= s.len() {
        StrScan::Fail(msg_unterminated_string(), k)
    } else if s[k] == '"' {
        StrScan::Done(lit, k + 1)
    } else if s[k] == '\n' {
        StrScan::Fail(msg_multiline_string(), k)
    } else if s[k] == '\\' {
        if k + 1 >= s.len() {
            StrScan::Fail(msg_unterminated_escape(), k + 1)
        } else if s[k + 1] == '\\' || s[k + 1] == '"' {
            scan_string(s, k + 2, lit.push(s[k + 1]))
        } else if s[k + 1] == 'n' {
            scan_string(s, k + 2, lit.push('\n'))
        } else if s[k + 1] == 't' {
            scan_string(s, k + 2, lit.push('\t'))
        } else {
            StrScan::Fail(msg_unsupported_escape(), k + 1)
        }
    } else {
        scan_string(s, k + 1, lit.push(s[k]))
    }
}

pub proof fn lemma_scan_string(s: Seq<char>, k: int, lit: Seq<char>)
    requires
        0 <= k <= s.len(),
    ensures
        match scan_string(s, k, lit) {
            StrScan::Done(_, j) => k < j <= s.len(),
            StrScan::Fail(_, j) => k <= j <= s.len(),
        },
    decreases s.len() - k,
{
    if k < s.len() && s[k] != '"' && s[k] != '\n' {
        if s[k] == '\\' {
            if k + 1 < s.len() {
                if s[k + 1] == '\\' || s[k + 1] == '"' {
                    lemma_scan_string(s, k + 2, lit.push(s[k + 1]));
                } else if s[k + 1] == 'n' {
                    lemma_scan_string(s, k + 2, lit.push('\n'));
                } else if s[k + 1] == 't' {
                    lemma_scan_string(s, k + 2, lit.push('\t'));
                }
            }
        } else {
            lemma_scan_string(s, k + 1, lit.push(s[k]));
        }
    }
}

pub open spec fn tok(kind: KindModel, span: Span) -> TokenModel {
    TokenModel { kind, span }
}

pub open spec fn lex_err(message: Seq<char>, span: Span) -> LexErrorModel {
    LexErrorModel { message, span }
}

/// The string-literal token (or error) that a scan from the quote at `i` produced.
pub open spec fn string_token(s: Seq<char>, i: int, r: StrScan) -> Result<
    (TokenModel, int),
    LexErrorModel,
> {
    match r {
        StrScan::Done(lit, k) => Ok((tok(KindModel::StringLiteral(lit), span_at(s, i, k)), k)),
        StrScan::Fail(m, k) => Err(lex_err(m, span_at(s, i, k))),
    }
}

/// The token that starts at index `i` (which is not trivia) and the index after it.
pub open spec fn next_token(s: Seq<char>, i: int) -> Result<(TokenModel, int), LexErrorModel> {
    let c = s[i];
    if c == '\n' {
        Ok((tok(KindModel::Newline, span_at(s, i, i + 1)), i + 1))
    } else if is_digit(c) {
        let j = digits_end(s, i);
        let v = digits_value(s.subrange(i, j));
        if v > u64::MAX {
            Err(lex_err(msg_invalid_integer(), span_at(s, i, j)))
        } else {
            Ok((tok(KindModel::Number(v as u64), span_at(s, i, j)), j))
        }
    } else if ident_start(c) {
        let j = ident_end(s, i);
        Ok((tok(word_kind(s.subrange(i, j)), span_at(s, i, j)), j))
    } else if c == '"' {
        string_token(s, i, scan_string(s, i + 1, Seq::empty()))
    } else if c == '=' {
        if i + 1 < s.len() && s[i + 1] == '>' {
            Ok((tok(KindModel::FatArrow, span_at(s, i, i + 2)), i + 2))
        } else {
            Ok((tok(KindModel::Symbol(Symbol::Equals), span_at(s, i, i + 1)), i + 1))
        }
    } else {
        match symbol_of(c) {
            Some(sym) => Ok((tok(KindModel::Symbol(sym), span_at(s, i, i + 1)), i + 1)),
            None => Err(lex_err(msg_unexpected_char(c), span_at(s, i, i))),
        }
    }
}

pub proof fn lemma_next_token_advances(s: Seq<char>, i: int)
    requires
        0 <= i < s.len(),
    ensures
        next_token(s, i) matches Ok((_, k)) ==> i < k <= s.len(),
{
    lemma_digits_end(s, i);
    lemma_ident_end(s, i);
    lemma_scan_string(s, i + 1, Seq::empty());
}

/// All tokens from index `i` on, or the first error.
pub open spec fn lex_from(s: Seq<char>, i: int) -> Result<Seq<TokenModel>, LexErrorModel>
    decreases s.len() - i,
{
    if i < 0 || i > s.len() {
        Ok(Seq::empty())
    } else {
        let j = trivia_end(s, i);
        proof {
            lemma_trivia_end(s, i);
        }
        if j >= s.len() {
            Ok(seq![tok(KindModel::EndOfFile, span_at(s, j, j))])
        } else {
            proof {
                lemma_next_token_advances(s, j);
            }
            match next_token(s, j) {
                Ok((t, k)) => match lex_from(s, k) {
                    Ok(rest) => Ok(seq![t] + rest),
                    Err(e) => Err(e),
                },
                Err(e) => Err(e),
            }
        }
    }
}

pub proof fn lemma_lex_from_unfold(s: Seq<char>, i: int)
    requires
        0 <= i <= s.len(),
    ensures
        lex_from(s, i) == ({
            let j = trivia_end(s, i);
            if j >= s.len() {
                Ok(seq![tok(KindModel::EndOfFile, span_at(s, j, j))])
            } else {
                match next_token(s, j) {
                    Ok((t, k)) => prepend(seq![t], lex_from(s, k)),
                    Err(e) => Err(e),
                }
            }
        }),
{
}

/// Lexing from `i` gives at most one token per character left, and the end-of-file token.
pub proof fn lemma_lex_from_len(s: Seq<char>, i: int)
    requires
        0 <= i <= s.len(),
    ensures
        lex_from(s, i) matches Ok(ts) ==> ts.len() <= s.len() - i + 1,
    decreases s.len() - i,
{
    let j = trivia_end(s, i);
    lemma_trivia_end(s, i);
    if j < s.len() {
        lemma_next_token_advances(s, j);
        if let Ok((t, k)) = next_token(s, j) {
            lemma_lex_from_len(s, k);
        }
    }
}

/// The tokens of a whole source, or the first lexing error.
pub open spec fn lex_spec(s: Seq<char>) -> Result<Seq<TokenModel>, LexErrorModel> {
    lex_from(s, 0)
}

pub open spec fn prepend(p: Seq<TokenModel>, r: Result<Seq<TokenModel>, LexErrorModel>) -> Result<
    Seq<TokenModel>,
    LexErrorModel,
> {
    match r {
        Ok(rest) => Ok(p + rest),
        Err(e) => Err(e),
    }
}

pub proof fn lemma_prepend_assoc(
    a: Seq<TokenModel>,
    b: Seq<TokenModel>,
    r: Result<Seq<TokenModel>, LexErrorModel>,
)
    ensures
        prepend(a, prepend(b, r)) == prepend(a + b, r),
{
    if let Ok(x) = r {
        assert(a + (b + x) =~= (a + b) + x);
    }
}

/// The model of a lexing outcome.
pub open spec fn lex_result_model(r: Result<Vec<Token>, LexError>) -> Result<
    Seq<TokenModel>,
    LexErrorModel,
> {
    match r {
        Ok(v) => Ok(tokens_model(v@)),
        Err(e) => Err(e@),
    }
}

// ---------------------------------------------------------------------------
// The lexer.
// ---------------------------------------------------------------------------
/// Tokenizes a source string into a list of tokens with spans.
///
/// - Skips spaces, tabs, `\r`, and `#` comments.
/// - Emits `Newline` tokens for `\n` and a trailing `EndOfFile`.
/// - A leading minus is separate from numbers.
pub fn lex_str(source: &str) -> (r: Result<Vec<Token>, LexError>)
    ensures
        lex_result_model(r) == lex_spec(source@),
{
    let n = source.as_bytes().len();
    let chars = chars_of(source);
    proof {
        lemma_byte_offset_bound(source@, source@.len() as int);
        assert(source@.take(source@.len() as int) =~= source@);
    }
    Lexer::new(chars).collect_tokens()
}

#[derive(Debug, Clone, Copy)]
struct Char(char, Position);

struct Lexer {
    source: Vec<char>,
    cursor: usize,
    next_offset: usize,
    last: Char,
}

impl Lexer {
    spec fn s(&self) -> Seq<char> {
        self.source@
    }

    spec fn wf(&self) -> bool {
        &&& self.cursor <= self.source@.len()
        &&& self.next_offset == byte_offset(self.source@, self.cursor as int)
        &&& self.last.1 == pos_at(self.source@, self.cursor as int)
        &&& byte_offset(self.source@, self.source@.len() as int) <= usize::MAX
    }

    fn new(source: Vec<char>) -> (r: Lexer)
        requires
            byte_offset(source@, source@.len() as int) <= usize::MAX,
        ensures
            r.wf(),
            r.cursor == 0,
            r.source@ == source@,
    {
        proof {
            assert(source@.take(0) =~= Seq::<char>::empty());
        }
        Lexer { source, cursor: 0, next_offset: 0, last: Char('\0', Position { offset: 0 }) }
    }

    fn collect_tokens(self) -> (r: Result<Vec<Token>, LexError>)
        requires
            self.wf(),
        ensures
            lex_result_model(r) == lex_from(self.s(), self.cursor as int),
    {
        let mut lexer = self;
        let ghost s = lexer.s();
        let ghost start = lexer.cursor as int;
        let mut tokens: Vec<Token> = Vec::new();
        loop
            invariant
                lexer.wf(),
                lexer.s() == s,
                s == self.s(),
                start == self.cursor as int,
                start <= lexer.cursor,
                lex_from(s, start) == prepend(tokens_model(tokens@), lex_from(s, lexer.cursor as int)),
            decreases s.len() - lexer.cursor,
        {
            let ghost i = lexer.cursor as int;
            lexer.skip_trivia();
            let ghost j = lexer.cursor as int;
            proof {
                lemma_trivia_end(s, i);
            }
            let ghost before = tokens_model(tokens@);
            proof {
                lemma_lex_from_unfold(s, i);
            }
            if lexer.cursor >= lexer.source.len() {
                let pos = lexer.position();
                tokens.push(Token { kind: TokenKind::EndOfFile, span: Span::Source(pos, pos) });
                proof {
                    assert(tokens_model(tokens@) =~= before + seq![
                        tok(KindModel::EndOfFile, span_at(s, j, j)),
                    ]);
                }
                return Ok(tokens);
            }
            proof {
                lemma_next_token_advances(s, j);
            }
            match lexer.lex_token() {
                Ok(t) => {
                    tokens.push(t);
                    proof {
                        assert(tokens_model(tokens@) =~= before + seq![t@]);
                        lemma_prepend_assoc(before, seq![t@], lex_from(s, lexer.cursor as int));
                    }
                },
                Err(e) => {
                    return Err(e);
                },
            }
        }
    }

    /// Lexes the token that starts at the cursor, which stands on a character that is not trivia.
    fn lex_token(&mut self) -> (r: Result<Token, LexError>)
        requires
            old(self).wf(),
            old(self).cursor < old(self).s().len(),
            !is_blank(old(self).s()[old(self).cursor as int]),
            old(self).s()[old(self).cursor as int] != '#',
        ensures
            final(self).wf(),
            final(self).s() == old(self).s(),
            match next_token(old(self).s(), old(self).cursor as int) {
                Ok((t, k)) => (r matches Ok(tk) && tk@ == t && final(self).cursor == k),
                Err(e) => (r matches Err(er) && er@ == e),
            },
    {
        let ch = self.source[self.cursor];
        if ch == '\n' {
            let start_pos = self.position();
            self.bump();
            Ok(Token { kind: TokenKind::Newline, span: self.span_from(start_pos) })
        } else if is_ascii_digit(ch) {
            self.lex_number()
        } else if is_ident_start(ch) {
            self.lex_identifier_or_keyword()
        } else if ch == '"' {
            self.lex_string()
        } else {
            self.lex_symbol()
        }
    }

    /// Skips blanks and comments; the cursor ends on the first other character.
    fn skip_trivia(&mut self)
        requires
            old(self).wf(),
        ensures
            final(self).wf(),
            final(self).s() == old(self).s(),
            final(self).cursor == trivia_end(old(self).s(), old(self).cursor as int),
    {
        let ghost s = self.s();
        let ghost i0 = self.cursor as int;
        loop
            invariant
                self.wf(),
                self.s() == s,
                0 <= i0 <= self.cursor,
                trivia_end(s, i0) == trivia_end(s, self.cursor as int),
            ensures
                self.wf(),
                self.s() == s,
                self.cursor == trivia_end(s, i0),
            decreases s.len() - self.cursor,
        {
            let ghost before = self.cursor as int;
            let blank = |x: char| -> (b: bool)
                ensures
                    b == is_blank(x),
                { x == ' ' || x == '\t' || x == '\r' };
            let mut consumed = self.skip_while(blank, Ghost(|x: char| is_blank(x)));
            proof {
                lemma_trivia_skip_blanks(s, before, self.cursor as int);
            }
            if self.peek_check_char('#') == Some(true) {
                let ghost at_hash = self.cursor as int;
                self.bump();
                consumed = true;
                let not_newline = |x: char| -> (b: bool)
                    ensures
                        b == (x != '\n'),
                    { x != '\n' };
                self.skip_while(not_newline, Ghost(|x: char| x != '\n'));
                proof {
                    lemma_line_end_from_scan(s, at_hash + 1, self.cursor as int);
                }
            }
            if !consumed {
                proof {
                    assert(self.cursor as int == before);
                    assert(trivia_end(s, self.cursor as int) == self.cursor as int);
                }
                break;
            }
        }
    }

    fn lex_number(&mut self) -> (r: Result<Token, LexError>)
        requires
            old(self).wf(),
            old(self).cursor < old(self).s().len(),
            is_digit(old(self).s()[old(self).cursor as int]),
        ensures
            final(self).wf(),
            final(self).s() == old(self).s(),
            match next_token(old(self).s(), old(self).cursor as int) {
                Ok((t, k)) => (r matches Ok(tk) && tk@ == t && final(self).cursor == k),
                Err(e) => (r matches Err(er) && er@ == e),
            },
    {
        let ghost s = self.s();
        let ghost i = self.cursor as int;
        let start = self.position();
        let mut value: Option<u64> = Some(0);
        proof {
            assert(s.subrange(i, i) =~= Seq::<char>::empty());
        }
        loop
            invariant
                self.wf(),
                self.s() == s,
                0 <= i <= self.cursor,
                forall|k: int| i <= k < self.cursor ==> is_digit(s[k]),
                start == pos_at(s, i),
                value matches Some(v) ==> v == digits_value(s.subrange(i, self.cursor as int)),
                value is None ==> digits_value(s.subrange(i, self.cursor as int)) > u64::MAX,
            ensures
                self.wf(),
                self.s() == s,
                0 <= i <= self.cursor,
                forall|k: int| i <= k < self.cursor ==> is_digit(s[k]),
                self.cursor < s.len() ==> !is_digit(s[self.cursor as int]),
                start == pos_at(s, i),
                value matches Some(v) ==> v == digits_value(s.subrange(i, self.cursor as int)),
                value is None ==> digits_value(s.subrange(i, self.cursor as int)) > u64::MAX,
            decreases s.len() - self.cursor,
        {
            let Some(ch) = self.peek_char() else { break };
            if is_ascii_digit(ch.0) {
                let ghost k = self.cursor as int;
                proof {
                    assert(s.subrange(i, k + 1).drop_last() =~= s.subrange(i, k));
                    assert(s.subrange(i, k + 1).last() == s[k]);
                }
                let ghost prev = digits_value(s.subrange(i, k));
                let d = (ch.0 as u32 - '0' as u32) as u64;
                assert(d == digit_value(s[k]));
                assert(d < 10);
                value = match value {
                    Some(v) => {
                        if v > (u64::MAX - d) / 10 {
                            proof {
                                assert(v * 10 + d > u64::MAX) by (nonlinear_arith)
                                    requires
                                        v > (u64::MAX - d) / 10,
                                        d < 10,
                                ;
                            }
                            None
                        } else {
                            proof {
                                assert(v * 10 + d <= u64::MAX) by (nonlinear_arith)
                                    requires
                                        v <= (u64::MAX - d) / 10,
                                        d < 10,
                                ;
                            }
                            Some(v * 10 + d)
                        }
                    },
                    None => {
                        proof {
                            assert(prev * 10 + d > u64::MAX) by (nonlinear_arith)
                                requires
                                    prev > u64::MAX,
                            ;
                        }
                        None
                    },
                };
                self.bump();
            } else {
                break;
            }
        }
        proof {
            lemma_digits_end(s, i);
            lemma_scan_stops_at(s, i, self.cursor as int);
        }
        match value {
            Some(v) => Ok(Token { kind: TokenKind::Number(v), span: self.span_from(start) }),
            None => Err(LexError::LexErrLoc("invalid integer literal".to_string(), self.span_from(start))),
        }
    }

    fn lex_identifier_or_keyword(&mut self) -> (r: Result<Token, LexError>)
        requires
            old(self).wf(),
            old(self).cursor < old(self).s().len(),
            ident_start(old(self).s()[old(self).cursor as int]),
        ensures
            final(self).wf(),
            final(self).s() == old(self).s(),
            match next_token(old(self).s(), old(self).cursor as int) {
                Ok((t, k)) => (r matches Ok(tk) && tk@ == t && final(self).cursor == k),
                Err(e) => (r matches Err(er) && er@ == e),
            },
    {
        let ghost s = self.s();
        let ghost i = self.cursor as int;
        let start = self.position();
        let mut ident: Vec<char> = Vec::new();
        loop
            invariant
                self.wf(),
                self.s() == s,
                0 <= i <= self.cursor,
                forall|k: int| i <= k < self.cursor ==> ident_continue(s[k]),
                start == pos_at(s, i),
                ident@ == s.subrange(i, self.cursor as int),
            ensures
                self.wf(),
                self.s() == s,
                0 <= i <= self.cursor,
                forall|k: int| i <= k < self.cursor ==> ident_continue(s[k]),
                self.cursor < s.len() ==> !ident_continue(s[self.cursor as int]),
                start == pos_at(s, i),
                ident@ == s.subrange(i, self.cursor as int),
            decreases s.len() - self.cursor,
        {
            let Some(ch) = self.peek_char() else { break };
            if is_ident_continue(ch.0) {
                ident.push(ch.0);
                self.bump();
                proof {
                    assert(ident@ =~= s.subrange(i, self.cursor as int));
                }
            } else {
                break;
            }
        }
        proof {
            lemma_ident_end(s, i);
            lemma_ident_scan_stops_at(s, i, self.cursor as int);
        }
        let kind = match keyword_from(&ident) {
            Some(k) => TokenKind::Keyword(k),
            None => TokenKind::Identifier(string_from_chars(&ident)),
        };
        Ok(Token { kind, span: self.span_from(start) })
    }

    fn lex_string(&mut self) -> (r: Result<Token, LexError>)
        requires
            old(self).wf(),
            old(self).cursor < old(self).s().len(),
            old(self).s()[old(self).cursor as int] == '"',
        ensures
            final(self).wf(),
            final(self).s() == old(self).s(),
            match next_token(old(self).s(), old(self).cursor as int) {
                Ok((t, k)) => (r matches Ok(tk) && tk@ == t && final(self).cursor == k),
                Err(e) => (r matches Err(er) && er@ == e),
            },
    {
        let ghost s = self.s();
        let ghost i = self.cursor as int;
        let start = self.position();
        self.bump();
        let mut literal = String::new();
        loop
            invariant
                self.wf(),
                self.s() == s,
                s == old(self).s(),
                i == old(self).cursor as int,
                0 <= i < self.cursor,
                start == pos_at(s, i),
                next_token(s, i) == string_token(s, i, scan_string(s, self.cursor as int, literal@)),
            decreases s.len() - self.cursor,
        {
            let Some(ch) = self.peek_char() else {
                return Err(
                    LexError::LexErrLoc(
                        "unterminated string literal".to_string(),
                        self.span_from(start),
                    ),
                );
            };
            if ch.0 == '"' {
                self.bump();
                let span = self.span_from(start);
                return Ok(Token { kind: TokenKind::StringLiteral(literal), span });
            } else if ch.0 == '\n' {
                return Err(
                    LexError::LexErrLoc(
                        "string literal cannot span multiple lines".to_string(),
                        self.span_from(start),
                    ),
                );
            } else if ch.0 == '\\' {
                self.bump();
                let Some(next) = self.peek_char() else {
                    return Err(
                        LexError::LexErrLoc(
                            "unterminated escape sequence".to_string(),
                            self.span_from(start),
                        ),
                    );
                };
                if next.0 == '\\' || next.0 == '"' {
                    push_char(&mut literal, next.0);
                    self.bump();
                } else if next.0 == 'n' {
                    push_char(&mut literal, '\n');
                    self.bump();
                } else if next.0 == 't' {
                    push_char(&mut literal, '\t');
                    self.bump();
                } else {
                    return Err(
                        LexError::LexErrLoc(
                            "unsupported escape sequence".to_string(),
                            self.span_from(start),
                        ),
                    );
                }
            } else {
                push_char(&mut literal, ch.0);
                self.bump();
            }
        }
    }

    fn lex_symbol(&mut self) -> (r: Result<Token, LexError>)
        requires
            old(self).wf(),
            old(self).cursor < old(self).s().len(),
        ensures
            final(self).wf(),
            final(self).s() == old(self).s(),
            ({
                let s = old(self).s();
                let i = old(self).cursor as int;
                let c = s[i];
                !(c == '\n' || is_digit(c) || ident_start(c) || c == '"') ==> match next_token(
                    s,
                    i,
                ) {
                    Ok((t, k)) => (r matches Ok(tk) && tk@ == t && final(self).cursor == k),
                    Err(e) => (r matches Err(er) && er@ == e),
                }
            }),
    {
        let ghost s = self.s();
        let ghost i = self.cursor as int;
        let start = self.position();
        let Some(ch) = self.peek_char() else {
            return Err(
                LexError::LexErrLoc("unexpected end of input".to_string(), self.span_from(start)),
            );
        };
        if ch.0 == '=' {
            self.bump();
            if self.peek_check_char('>') == Some(true) {
                self.bump();
                return Ok(Token { kind: TokenKind::FatArrow, span: self.span_from(start) });
            } else {
                return Ok(
                    Token { kind: TokenKind::Symbol(Symbol::Equals), span: self.span_from(start) },
                );
            }
        }
        let kind = match symbol_from(ch.0) {
            Some(sym) => TokenKind::Symbol(sym),
            None => {
                let mut message = "unexpected character '".to_string();
                push_char(&mut message, ch.0);
                push_char(&mut message, '\'');
                return Err(LexError::LexErrLoc(message, self.span_from(start)));
            },
        };
        self.bump();
        Ok(Token { kind, span: self.span_from(start) })
    }

    fn position(&self) -> (p: Position)
        requires
            self.wf(),
        ensures
            p == pos_at(self.s(), self.cursor as int),
    {
        self.last.1
    }

    fn span_from(&self, start: Position) -> (r: Span)
        requires
            self.wf(),
        ensures
            r == Span::Source(start, pos_at(self.s(), self.cursor as int)),
    {
        Span::Source(start, self.position())
    }

    fn bump(&mut self) -> (r: Option<Char>)
        requires
            old(self).wf(),
        ensures
            final(self).wf(),
            final(self).s() == old(self).s(),
            old(self).cursor < old(self).s().len() ==> final(self).cursor == old(self).cursor + 1
                && r == Some(final(self).last) && final(self).last.0 == old(self).s()[old(self).cursor as int],
            old(self).cursor >= old(self).s().len() ==> final(self).cursor == old(self).cursor
                && r is None,
    {
        if self.cursor >= self.source.len() {
            return None;
        }
        let ch = self.source[self.cursor];
        proof {
            lemma_byte_offset_step(self.source@, self.cursor as int);
            lemma_byte_offset_bound(self.source@, self.cursor as int + 1);
            lemma_byte_offset_prefix_len(self.source@, self.cursor as int + 1);
        }
        let w = char_width(ch);
        self.last = Char(ch, Position { offset: self.next_offset });
        self.next_offset = self.next_offset + w;
        self.cursor = self.cursor + 1;
        Some(self.last)
    }

    fn peek_char(&self) -> (r: Option<Char>)
        requires
            self.wf(),
        ensures
            self.cursor < self.s().len() ==> (r matches Some(c) && c.0 == self.s()[self.cursor as int]),
            self.cursor >= self.s().len() ==> r is None,
    {
        if self.cursor < self.source.len() {
            Some(Char(self.source[self.cursor], Position { offset: self.next_offset }))
        } else {
            None
        }
    }

    fn peek_check_char(&self, c: char) -> (r: Option<bool>)
        requires
            self.wf(),
        ensures
            self.cursor < self.s().len() ==> r == Some(self.s()[self.cursor as int] == c),
            self.cursor >= self.s().len() ==> r is None,
    {
        if self.cursor < self.source.len() {
            Some(self.source[self.cursor] == c)
        } else {
            None
        }
    }

    /// Consumes characters while `predicate` holds; reports whether any was consumed.
    fn skip_while<F: Fn(char) -> bool>(
        &mut self,
        predicate: F,
        Ghost(p): Ghost<spec_fn(char) -> bool>,
    ) -> (did_skip: bool)
        requires
            old(self).wf(),
            forall|c: char| predicate.requires((c,)),
            forall|c: char, b: bool| predicate.ensures((c,), b) ==> b == p(c),
        ensures
            final(self).wf(),
            final(self).s() == old(self).s(),
            old(self).cursor <= final(self).cursor,
            forall|k: int| old(self).cursor <= k < final(self).cursor ==> p(old(self).s()[k]),
            final(self).cursor < final(self).s().len() ==> !p(final(self).s()[final(self).cursor as int]),
            did_skip == (final(self).cursor > old(self).cursor),
    {
        let ghost s = self.s();
        let ghost c0 = self.cursor as int;
        let mut did_skip = false;
        loop
            invariant
                self.wf(),
                self.s() == s,
                c0 <= self.cursor,
                forall|k: int| c0 <= k < self.cursor ==> p(s[k]),
                did_skip == (self.cursor > c0),
                forall|c: char| predicate.requires((c,)),
                forall|c: char, b: bool| predicate.ensures((c,), b) ==> b == p(c),
            ensures
                self.wf(),
                self.s() == s,
                c0 <= self.cursor,
                forall|k: int| c0 <= k < self.cursor ==> p(s[k]),
                did_skip == (self.cursor > c0),
                self.cursor < s.len() ==> !p(s[self.cursor as int]),
            decreases s.len() - self.cursor,
        {
            let Some(x) = self.peek_char() else { break };
            if predicate(x.0) {
                did_skip = true;
                self.bump();
                continue;
            }
            break;
        }
        did_skip
    }
}

proof fn lemma_byte_offset_prefix_len(s: Seq<char>, i: int)
    requires
        0 <= i <= s.len(),
    ensures
        byte_offset(s, i) <= byte_offset(s, s.len() as int),
{
    lemma_byte_offset_bound(s, i);
    assert(s.take(s.len() as int) =~= s);
}

proof fn lemma_trivia_skip_blanks(s: Seq<char>, i: int, j: int)
    requires
        0 <= i <= j <= s.len(),
        forall|k: int| i <= k < j ==> is_blank(s[k]),
    ensures
        trivia_end(s, i) == trivia_end(s, j),
    decreases j - i,
{
    if i < j {
        lemma_trivia_skip_blanks(s, i + 1, j);
    }
}

proof fn lemma_line_end_from_scan(s: Seq<char>, i: int, j: int)
    requires
        1 <= i <= j <= s.len(),
        s[i - 1] == '#',
        forall|k: int| i <= k < j ==> s[k] != '\n',
        j < s.len() ==> s[j] == '\n',
    ensures
        trivia_end(s, i - 1) == trivia_end(s, j),
{
    lemma_line_end_is(s, i, j);
}

proof fn lemma_line_end_is(s: Seq<char>, i: int, j: int)
    requires
        0 <= i <= j <= s.len(),
        forall|k: int| i <= k < j ==> s[k] != '\n',
        j < s.len() ==> s[j] == '\n',
    ensures
        line_end(s, i) == j,
    decreases j - i,
{
    if i < j {
        lemma_line_end_is(s, i + 1, j);
    }
}

proof fn lemma_scan_stops_at(s: Seq<char>, i: int, j: int)
    requires
        0 <= i <= j <= s.len(),
        forall|k: int| i <= k < j ==> is_digit(s[k]),
        j < s.len() ==> !is_digit(s[j]),
    ensures
        digits_end(s, i) == j,
    decreases j - i,
{
    if i < j {
        lemma_scan_stops_at(s, i + 1, j);
    }
}

proof fn lemma_ident_scan_stops_at(s: Seq<char>, i: int, j: int)
    requires
        0 <= i <= j <= s.len(),
        forall|k: int| i <= k < j ==> ident_continue(s[k]),
        j < s.len() ==> !ident_continue(s[j]),
    ensures
        ident_end(s, i) == j,
    decreases j - i,
{
    if i < j {
        lemma_ident_scan_stops_at(s, i + 1, j);
    }
}

fn is_ident_start(ch: char) -> (b: bool)
    ensures
        b == ident_start(ch),
{
    is_ascii_alphabetic(ch) || ch == '_'
}

fn is_ident_continue(ch: char) -> (b: bool)
    ensures
        b == ident_continue(ch),
{
    is_ident_start(ch) || is_ascii_digit(ch)
}

fn symbol_from(c: char) -> (r: Option<Symbol>)
    ensures
        c != '=' ==> r == symbol_of(c),
{
    match c {
        ':' => Some(Symbol::Colon),
        '-' => Some(Symbol::Minus),
        '=' => Some(Symbol::Equals),
        '(' => Some(Symbol::LParen),
        ')' => Some(Symbol::RParen),
        '[' => Some(Symbol::LBracket),
        ']' => Some(Symbol::RBracket),
        '{' => Some(Symbol::LBrace),
        '}' => Some(Symbol::RBrace),
        '*' => Some(Symbol::Asterisk),
        _ => None,
    }
}

fn chars_are(w: &Vec<char>, a: &[char]) -> (b: bool)
    ensures
        b == (w@ == a@),
{
    if w.len() != a.len() {
        return false;
    }
    let mut i: usize = 0;
    while i < a.len()
        invariant
            w@.len() == a@.len(),
            i <= a.len(),
            forall|k: int| 0 <= k < i ==> w@[k] == a@[k],
        decreases a.len() - i,
    {
        if w[i] != a[i] {
            return false;
        }
        i = i + 1;
    }
    assert(w@ =~= a@);
    true
}

fn keyword_from(w: &Vec<char>) -> (r: Option<Keyword>)
    ensures
        r == keyword_of(w@),
{
    if chars_are(w, &['p', 'a', 'c', 'k']) {
        Some(Keyword::Pack)
    } else if chars_are(w, &['e', 'n', 'u', 'm']) {
        Some(Keyword::Enum)
    } else if chars_are(w, &['b', 'i', 't', 's']) {
        Some(Keyword::Bits)
    } else if chars_are(w, &['v', 'a', 'r', 'i', 'a', 'n', 't']) {
        Some(Keyword::Variant)
    } else if chars_are(w, &['s', 'e', 'q']) {
        Some(Keyword::Sequence)
    } else if chars_are(w, &['a', 'l', 'i', 'a', 's']) {
        Some(Keyword::Alias)
    } else if chars_are(w, &['u', 's', 'e']) {
        Some(Keyword::Use)
    } else if chars_are(w, &['a', 's']) {
        Some(Keyword::As)
    } else {
        None
    }
}

} // verus!
