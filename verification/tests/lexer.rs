use engine::lexer::{lex, TokenKind};
use engine::span::Span;

#[test]
fn lexes_simple_program() {
    let toks = lex("let x = 1 + 2;").unwrap();
    let kinds: Vec<TokenKind> = toks.iter().map(|t| t.kind).collect();
    assert_eq!(
        kinds,
        vec![
            TokenKind::Let,
            TokenKind::Ident,
            TokenKind::Assign,
            TokenKind::Int,
            TokenKind::Plus,
            TokenKind::Int,
            TokenKind::Semi,
        ]
    );
    // spans point at the right text
    assert_eq!(toks[1].text, "x");
    assert_eq!(toks[1].span, Span::new(4, 5));
}

#[test]
fn lexes_two_char_operators() {
    let toks = lex("== != <= >= < >").unwrap();
    let kinds: Vec<TokenKind> = toks.iter().map(|t| t.kind).collect();
    assert_eq!(
        kinds,
        vec![
            TokenKind::EqEq,
            TokenKind::BangEq,
            TokenKind::LtEq,
            TokenKind::GtEq,
            TokenKind::Lt,
            TokenKind::Gt,
        ]
    );
}

#[test]
fn skips_comments() {
    let toks = lex("let a = 1; // the answer\nprint(a);").unwrap();
    assert_eq!(toks.len(), 10);
}

#[test]
fn rejects_unknown_chars() {
    let err = lex("let x = @;").unwrap_err();
    assert!(err.message.contains("unexpected character"));
    assert_eq!(err.span.unwrap().start, 8);
}
