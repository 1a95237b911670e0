//! A cursor over a token stream used by the parser.
//!
//! It offers methods that demand specific token kinds and produce consistent
//! `ModuleBuildError`s with spans when expectations are not met.
use std::collections::VecDeque;

use vstd::prelude::*;

use crate::module::{BuildErrorModel, ModuleBuildError};
use crate::tokens::{
    span_union, tokens_model, KindModel, Keyword, Span, Symbol, Token, TokenKind, TokenModel,
};

verus! {

/// Thin wrapper over a token stream with convenience methods for parsing.
pub struct TokenReader {
    tokens: VecDeque<Token>,
}

/// Debug name of a symbol, as used in error messages.
pub open spec fn symbol_name(sym: Symbol) -> Seq<char> {
    match sym {
        Symbol::Colon => "Colon"@,
        Symbol::Minus => "Minus"@,
        Symbol::Equals => "Equals"@,
        Symbol::LParen => "LParen"@,
        Symbol::RParen => "RParen"@,
        Symbol::LBracket => "LBracket"@,
        Symbol::RBracket => "RBracket"@,
        Symbol::LBrace => "LBrace"@,
        Symbol::RBrace => "RBrace"@,
        Symbol::Asterisk => "Asterisk"@,
    }
}

/// The keyword that scanning finds at the front of `ts` (skipping newlines), and how
/// many tokens the scan consumes.
pub open spec fn scan_kw(ts: Seq<TokenModel>) -> (Option<(Keyword, Span)>, nat)
    decreases ts.len(),
{
    if ts.len() == 0 {
        (None, 0)
    } else {
        match ts[0].kind {
            KindModel::Keyword(k) => (Some((k, ts[0].span)), 1),
            KindModel::Newline => {
                let (r, n) = scan_kw(ts.drop_first());
                (r, n + 1)
            },
            _ => (None, 1),
        }
    }
}

pub open spec fn unexpected(wanted: Seq<char>, found: TokenModel) -> BuildErrorModel {
    BuildErrorModel::UnexpectedToken { expected: wanted, found }
}

pub open spec fn is_minus(t: TokenModel) -> bool {
    t.kind == KindModel::Symbol(Symbol::Minus)
}

/// What `demand_number` returns on `ts`, and how many tokens it consumes.
pub open spec fn number_outcome(ts: Seq<TokenModel>) -> (Result<(i64, Span), BuildErrorModel>, nat) {
    let neg = ts.len() > 0 && is_minus(ts[0]);
    let k: int = if neg {
        1
    } else {
        0
    };
    if ts.len() <= k {
        (Err(BuildErrorModel::UnexpectedEOF), k as nat)
    } else {
        match ts[k].kind {
            KindModel::Number(x) => {
                if x > i64::MAX {
                    (
                        Err(BuildErrorModel::Internal("failed to parse integer literal"@)),
                        (k + 1) as nat,
                    )
                } else {
                    let span = if neg {
                        span_union(ts[0].span, ts[k].span)
                    } else {
                        ts[k].span
                    };
                    let v: int = if neg {
                        -(x as int)
                    } else {
                        x as int
                    };
                    (Ok((v as i64, span)), (k + 1) as nat)
                }
            },
            _ => (Err(unexpected("number"@, ts[k])), (k + 1) as nat),
        }
    }
}

/// The span of the next token, or the built-in span at the end.
pub open spec fn cur_span(ts: Seq<TokenModel>) -> Span {
    if ts.len() > 0 {
        ts[0].span
    } else {
        Span::Builtin
    }
}

/// `ts` after one token is taken, if there is one.
pub open spec fn after_one(ts: Seq<TokenModel>) -> Seq<TokenModel> {
    if ts.len() > 0 {
        ts.drop_first()
    } else {
        ts
    }
}

/// `ts` after `k` tokens are taken one at a time.
pub open spec fn after_n(ts: Seq<TokenModel>, k: nat) -> Seq<TokenModel>
    decreases k,
{
    if k == 0 {
        ts
    } else {
        after_one(after_n(ts, (k - 1) as nat))
    }
}

/// Taking tokens one at a time hands them out in order: after `k` takes, the next take
/// gives token `k` while there is one, and `UnexpectedEOF` from then on.
pub proof fn lemma_takes_in_order(ts: Seq<TokenModel>, k: nat)
    ensures
        k <= ts.len() ==> after_n(ts, k) == ts.skip(k as int),
        k < ts.len() ==> next_result(after_n(ts, k)) == Ok::<TokenModel, BuildErrorModel>(ts[k as int]),
        k >= ts.len() ==> next_result(after_n(ts, k)) == Err::<TokenModel, BuildErrorModel>(
            BuildErrorModel::UnexpectedEOF,
        ),
    decreases k,
{
    if k == 0 {
        assert(ts.skip(0) =~= ts);
    } else {
        lemma_takes_in_order(ts, (k - 1) as nat);
        if k <= ts.len() {
            assert(ts.skip(k - 1).drop_first() =~= ts.skip(k as int));
        }
    }
}

/// The next token, or the end-of-file error.
pub open spec fn next_result(ts: Seq<TokenModel>) -> Result<TokenModel, BuildErrorModel> {
    if ts.len() == 0 {
        Err(BuildErrorModel::UnexpectedEOF)
    } else {
        Ok(ts[0])
    }
}

/// The name and span of the next token if it is an identifier.
pub open spec fn ident_result(ts: Seq<TokenModel>) -> Result<(Seq<char>, Span), BuildErrorModel> {
    if ts.len() == 0 {
        Err(BuildErrorModel::UnexpectedEOF)
    } else {
        match ts[0].kind {
            KindModel::Identifier(x) => Ok((x, ts[0].span)),
            _ => Err(unexpected("identifier"@, ts[0])),
        }
    }
}

/// The span of the next token if it ends a line.
pub open spec fn newline_result(ts: Seq<TokenModel>) -> Result<Span, BuildErrorModel> {
    if ts.len() == 0 {
        Err(BuildErrorModel::UnexpectedEOF)
    } else {
        match ts[0].kind {
            KindModel::Newline | KindModel::EndOfFile => Ok(ts[0].span),
            _ => Err(unexpected("newline"@, ts[0])),
        }
    }
}

/// Whether the next token is `=>`.
pub open spec fn arrow_result(ts: Seq<TokenModel>) -> Result<(), BuildErrorModel> {
    if ts.len() == 0 {
        Err(BuildErrorModel::UnexpectedEOF)
    } else {
        match ts[0].kind {
            KindModel::FatArrow => Ok(()),
            _ => Err(unexpected("'=>'"@, ts[0])),
        }
    }
}

/// Whether the next token is the symbol `sym`.
pub open spec fn symbol_result(ts: Seq<TokenModel>, sym: Symbol) -> Result<(), BuildErrorModel> {
    if ts.len() == 0 {
        Err(BuildErrorModel::UnexpectedEOF)
    } else {
        match ts[0].kind {
            KindModel::Symbol(x) => if x == sym {
                Ok(())
            } else {
                Err(unexpected("symbol '"@ + symbol_name(sym) + "'"@, ts[0]))
            },
            _ => Err(unexpected("symbol"@, ts[0])),
        }
    }
}

/// The next token's symbol if it is one of `syms`.
pub open spec fn peek_symbol(ts: Seq<TokenModel>, syms: Seq<Symbol>) -> Option<Symbol> {
    if ts.len() > 0 {
        match ts[0].kind {
            KindModel::Symbol(x) => if syms.contains(x) {
                Some(x)
            } else {
                None
            },
            _ => None,
        }
    } else {
        None
    }
}

impl View for TokenReader {
    type V = Seq<TokenModel>;

    /// The tokens not yet consumed.
    closed spec fn view(&self) -> Seq<TokenModel> {
        tokens_model(self.tokens@)
    }
}

impl TokenReader {
    /// Constructs a reader over a token sequence.
    pub fn new(tokens: Vec<Token>) -> (r: Self)
        ensures
            r@ == tokens_model(tokens@),
    {
        let mut tokens = tokens;
        let ghost all = tokens@;
        let mut deque: VecDeque<Token> = VecDeque::new();
        while tokens.len() > 0
            invariant
                all == tokens@ + deque@,
            decreases tokens.len(),
        {
            let ghost prev = tokens@;
            let t = tokens.pop().unwrap();
            deque.push_front(t);
            proof {
                assert(prev =~= tokens@.push(t));
            }
            assert(all =~= tokens@ + deque@);
        }
        assert(deque@ =~= all);
        TokenReader { tokens: deque }
    }

    /// Current span based on the next token in the stream.
    pub fn current_span(&mut self) -> (r: Span)
        ensures
            final(self)@ == old(self)@,
            r == cur_span(old(self)@),
    {
        if self.tokens.len() > 0 {
            self.tokens[0].span
        } else {
            Span::Builtin
        }
    }

    /// Helper that builds a standardized "unexpected token" error.
    pub fn make_unexpected(&self, wanted: &str, found: Token) -> (r: ModuleBuildError)
        ensures
            r@ == unexpected(wanted@, found@),
    {
        ModuleBuildError::UnexpectedToken { expected: wanted.to_string(), found }
    }

    fn pop_front(&mut self) -> (r: Option<Token>)
        ensures
            old(self)@.len() > 0 ==> (r matches Some(t) && t@ == old(self)@[0] && final(self)@
                == old(self)@.drop_first()),
            old(self)@.len() == 0 ==> r is None && final(self)@ == old(self)@,
    {
        let r = self.tokens.pop_front();
        proof {
            if old(self)@.len() > 0 {
                assert(tokens_model(self.tokens@) =~= tokens_model(old(self).tokens@).drop_first());
            }
        }
        r
    }

    /// Advances to the next keyword token, skipping newlines. Returns `None` if a
    /// token that is neither a newline nor a keyword comes first (consuming it), or
    /// if the stream ends.
    pub fn scan_to_next_kw(&mut self) -> (r: Option<(Keyword, Span)>)
        ensures
            r == scan_kw(old(self)@).0,
            final(self)@ == old(self)@.skip(scan_kw(old(self)@).1 as int),
    {
        let ghost start = self@;
        loop
            invariant
                start == old(self)@,
                scan_kw(start) == ({
                    let (r, n) = scan_kw(self@);
                    (r, n + (start.len() - self@.len()) as nat)
                }),
                start.skip(start.len() - self@.len()) == self@,
                self@.len() <= start.len(),
            decreases self@.len(),
        {
            let ghost before = self@;
            let Some(next) = self.pop_front() else {
                proof {
                    assert(start.skip(start.len() - self@.len()) =~= self@);
                }
                return None;
            };
            proof {
                assert(start.skip(start.len() - self@.len()) =~= self@);
            }
            match next.kind {
                TokenKind::Keyword(kw) => {
                    return Some((kw, next.span));
                },
                TokenKind::Newline => {
                    continue;
                },
                _ => return None,
            }
        }
    }

    /// Takes the next token or returns `UnexpectedEOF`.
    pub fn demand_next(&mut self) -> (r: Result<Token, ModuleBuildError>)
        ensures
            final(self)@ == after_one(old(self)@),
            match (r, next_result(old(self)@)) {
                (Ok(t), Ok(u)) => t@ == u,
                (Err(e), Err(f)) => e@ == f,
                _ => false,
            },
    {
        match self.pop_front() {
            Some(t) => Ok(t),
            None => Err(ModuleBuildError::UnexpectedEOF),
        }
    }

    /// Parses an optional `-` followed by a number token; returns the signed value
    /// and the covering span. Fails if the next token is not a number.
    pub fn demand_number(&mut self) -> (r: Result<(i64, Span), ModuleBuildError>)
        ensures
            match (r, number_outcome(old(self)@).0) {
                (Ok(v), Ok(w)) => v == w,
                (Err(e), Err(f)) => e@ == f,
                _ => false,
            },
            final(self)@ == old(self)@.skip(number_outcome(old(self)@).1 as int),
    {
        let ghost ts = self@;
        let mut is_neg = false;
        let mut start_span: Option<Span> = None;
        if self.tokens.len() > 0 {
            if let TokenKind::Symbol(Symbol::Minus) = self.tokens[0].kind {
                let t = self.pop_front().unwrap();
                start_span = Some(t.span);
                is_neg = true;
            }
        }
        proof {
            if is_neg {
                assert(ts.skip(1) =~= self@);
            } else {
                assert(ts.skip(0) =~= self@);
            }
        }
        let token = match self.demand_next() {
            Ok(t) => t,
            Err(e) => return Err(e),
        };
        proof {
            let k: int = if is_neg { 1 } else { 0 };
            assert(ts.skip(k + 1) =~= self@);
        }
        let TokenKind::Number(x) = token.kind else {
            return Err(self.make_unexpected("number", token));
        };
        if x > i64::MAX as u64 {
            return Err(ModuleBuildError::Internal("failed to parse integer literal".to_string()));
        }
        let x = x as i64;
        let span = match start_span {
            Some(s) => s.union(&token.span),
            None => token.span,
        };
        Ok((if is_neg { -x } else { x }, span))
    }

    /// Takes and returns an identifier token.
    pub fn demand_identifier(&mut self) -> (r: Result<(String, Span), ModuleBuildError>)
        ensures
            final(self)@ == after_one(old(self)@),
            match (r, ident_result(old(self)@)) {
                (Ok((n, sp)), Ok((m, sq))) => n@ == m && sp == sq,
                (Err(e), Err(f)) => e@ == f,
                _ => false,
            },
    {
        let token = self.demand_next()?;
        let TokenKind::Identifier(x) = token.kind else {
            return Err(self.make_unexpected("identifier", token));
        };
        Ok((x, token.span))
    }

    /// Demands a newline or end-of-file token.
    pub fn demand_newline(&mut self) -> (r: Result<Span, ModuleBuildError>)
        ensures
            final(self)@ == after_one(old(self)@),
            match (r, newline_result(old(self)@)) {
                (Ok(sp), Ok(sq)) => sp == sq,
                (Err(e), Err(f)) => e@ == f,
                _ => false,
            },
    {
        let token = self.demand_next()?;
        match token.kind {
            TokenKind::Newline | TokenKind::EndOfFile => {},
            _ => return Err(self.make_unexpected("newline", token)),
        }
        Ok(token.span)
    }

    /// Demands the special `=>` fat arrow token.
    pub fn demand_fat_arrow(&mut self) -> (r: Result<(), ModuleBuildError>)
        ensures
            final(self)@ == after_one(old(self)@),
            match (r, arrow_result(old(self)@)) {
                (Ok(_), Ok(_)) => true,
                (Err(e), Err(f)) => e@ == f,
                _ => false,
            },
    {
        let token = self.demand_next()?;
        match token.kind {
            TokenKind::FatArrow => Ok(()),
            _ => Err(self.make_unexpected("'=>'", token)),
        }
    }

    /// Demands a specific symbol token.
    pub fn demand_symbol(&mut self, sym: Symbol) -> (r: Result<(), ModuleBuildError>)
        ensures
            final(self)@ == after_one(old(self)@),
            match (r, symbol_result(old(self)@, sym)) {
                (Ok(_), Ok(_)) => true,
                (Err(e), Err(f)) => e@ == f,
                _ => false,
            },
    {
        let token = self.demand_next()?;
        let TokenKind::Symbol(x) = token.kind else {
            return Err(self.make_unexpected("symbol", token));
        };
        if x != sym {
            let mut wanted = "symbol '".to_string();
            wanted.append(symbol_str(sym));
            wanted.append("'");
            return Err(self.make_unexpected(wanted.as_str(), token));
        }
        Ok(())
    }

    /// Peeks at the next token: the symbol it holds if that symbol is one of `syms`.
    /// Nothing is consumed.
    pub fn request_symbols(&mut self, syms: &[Symbol]) -> (r: Option<Symbol>)
        ensures
            final(self)@ == old(self)@,
            r == peek_symbol(old(self)@, syms@),
    {
        if self.tokens.len() == 0 {
            return None;
        }
        let TokenKind::Symbol(x) = self.tokens[0].kind else {
            return None;
        };
        assert(self@[0].kind == KindModel::Symbol(x));
        let mut i: usize = 0;
        while i < syms.len()
            invariant
                old(self)@.len() > 0,
                old(self)@[0].kind == KindModel::Symbol(x),
                i <= syms@.len(),
                forall|k: int| 0 <= k < i ==> syms@[k] != x,
            decreases syms.len() - i,
        {
            if syms[i] == x {
                assert(syms@[i as int] == x);
                return Some(x);
            }
            i = i + 1;
        }
        None
    }
}

/// Debug name of a symbol.
pub fn symbol_str(sym: Symbol) -> (r: &'static str)
    ensures
        r@ == symbol_name(sym),
{
    match sym {
        Symbol::Colon => "Colon",
        Symbol::Minus => "Minus",
        Symbol::Equals => "Equals",
        Symbol::LParen => "LParen",
        Symbol::RParen => "RParen",
        Symbol::LBracket => "LBracket",
        Symbol::RBracket => "RBracket",
        Symbol::LBrace => "LBrace",
        Symbol::RBrace => "RBrace",
        Symbol::Asterisk => "Asterisk",
    }
}

} // verus!
