use itertools::Itertools;
use jaw::tokens::{lex_str, Keyword, LexError, Symbol, TokenKind};

#[test]
fn tokens_lexes_example_pack() {
    let source = "
pack MyPOD
- a_thing : u8
- b_thing : u64";
    let tokens = lex_str(source).expect("lexing failed");

    let iter = tokens
        .into_iter()
        .skip_while(|x| matches!(x.kind, TokenKind::Newline))
        .map(|x| x.kind);

    let truth = [
        TokenKind::Keyword(Keyword::Pack),
        TokenKind::Identifier("MyPOD".to_string()),
        TokenKind::Newline,
        TokenKind::Symbol(Symbol::Minus),
        TokenKind::Identifier("a_thing".to_string()),
        TokenKind::Symbol(Symbol::Colon),
        TokenKind::Identifier("u8".to_string()),
        TokenKind::Newline,
        TokenKind::Symbol(Symbol::Minus),
        TokenKind::Identifier("b_thing".to_string()),
        TokenKind::Symbol(Symbol::Colon),
        TokenKind::Identifier("u64".to_string()),
        TokenKind::EndOfFile,
    ];

    itertools::assert_equal(iter, truth.into_iter());
}

#[test]
fn lexes_keywords_and_identifiers() {
    let src = "pack enum bits variant seq alias use as _id id1\n";
    let kinds = lex_str(src)
        .unwrap()
        .into_iter()
        .map(|t| t.kind)
        .collect_vec();
    let expect = vec![
        TokenKind::Keyword(Keyword::Pack),
        TokenKind::Keyword(Keyword::Enum),
        TokenKind::Keyword(Keyword::Bits),
        TokenKind::Keyword(Keyword::Variant),
        TokenKind::Keyword(Keyword::Sequence),
        TokenKind::Keyword(Keyword::Alias),
        TokenKind::Keyword(Keyword::Use),
        TokenKind::Keyword(Keyword::As),
        TokenKind::Identifier("_id".into()),
        TokenKind::Identifier("id1".into()),
        TokenKind::Newline,
        TokenKind::EndOfFile,
    ];
    itertools::assert_equal(kinds, expect);
}

#[test]
fn lexes_numbers_and_minus_split() {
    let src = "-123 456\n";
    let kinds = lex_str(src)
        .unwrap()
        .into_iter()
        .map(|t| t.kind)
        .collect_vec();
    let expect = vec![
        TokenKind::Symbol(Symbol::Minus),
        TokenKind::Number(123),
        TokenKind::Number(456),
        TokenKind::Newline,
        TokenKind::EndOfFile,
    ];
    itertools::assert_equal(kinds, expect);
}

#[test]
fn lexes_string_with_escapes() {
    let src = "\"a\\n\\t\\\\\\\"b\"\n";
    let toks = lex_str(src).unwrap();
    assert!(matches!(toks[0].kind, TokenKind::StringLiteral(_)));
    if let TokenKind::StringLiteral(s) = toks[0].kind.clone() {
        assert_eq!(s, "a\n\t\\\"b");
    } else {
        unreachable!();
    }
}

#[test]
fn string_errors() {
    // Unterminated
    let unterminated = lex_str("\"abc");
    assert!(matches!(unterminated, Err(LexError::LexErrLoc(_, _))));

    // Invalid escape
    let bad_escape = lex_str("\"\\x\"");
    assert!(matches!(bad_escape, Err(LexError::LexErrLoc(_, _))));
}

#[test]
fn lexes_symbols_and_fat_arrow() {
    let src = "=>:=-()[]{}*\n";
    let kinds = lex_str(src)
        .unwrap()
        .into_iter()
        .map(|t| t.kind)
        .collect_vec();
    let expect = vec![
        TokenKind::FatArrow,
        TokenKind::Symbol(Symbol::Colon),
        TokenKind::Symbol(Symbol::Equals),
        TokenKind::Symbol(Symbol::Minus),
        TokenKind::Symbol(Symbol::LParen),
        TokenKind::Symbol(Symbol::RParen),
        TokenKind::Symbol(Symbol::LBracket),
        TokenKind::Symbol(Symbol::RBracket),
        TokenKind::Symbol(Symbol::LBrace),
        TokenKind::Symbol(Symbol::RBrace),
        TokenKind::Symbol(Symbol::Asterisk),
        TokenKind::Newline,
        TokenKind::EndOfFile,
    ];
    itertools::assert_equal(kinds, expect);
}

#[test]
fn skips_comments() {
    let src = "pack X # comment\ny\n# another comment\n";
    let kinds = lex_str(src)
        .unwrap()
        .into_iter()
        .map(|t| t.kind)
        .collect_vec();
    let expect = vec![
        TokenKind::Keyword(Keyword::Pack),
        TokenKind::Identifier("X".into()),
        TokenKind::Newline,
        TokenKind::Identifier("y".into()),
        TokenKind::Newline,
        TokenKind::Newline,
        TokenKind::EndOfFile,
    ];
    itertools::assert_equal(kinds, expect);
}

#[test]
fn eof_on_empty_input() {
    let kinds = lex_str("")
        .unwrap()
        .into_iter()
        .map(|t| t.kind)
        .collect_vec();
    let expect = vec![TokenKind::EndOfFile];
    itertools::assert_equal(kinds, expect);
}

#[test]
fn unexpected_char_errors() {
    let err = lex_str("@");
    assert!(matches!(err, Err(LexError::LexErrLoc(_, _))));
}
