//! Lexer: raw source text to tokens, each tagged with its source span.
use vstd::prelude::*;
use crate::span::{CompileError, ErrorView, Span, error_at};
use vstd::string::StringSliceAdditionalSpecFns;

verus! {

#[derive(Clone, Copy, Debug, PartialEq, Eq, Structural)]
pub enum TokenKind {
    // keywords
    Let,
    If,
    Else,
    While,
    Print,
    // literals / names
    Int,
    Ident,
    // operators
    Plus,
    Minus,
    Star,
    Slash,
    Percent,
    /// `=`
    Assign,
    /// `==`
    EqEq,
    /// `!=`
    BangEq,
    /// `<`
    Lt,
    /// `<=`
    LtEq,
    /// `>`
    Gt,
    /// `>=`
    GtEq,
    // punctuation
    LParen,
    RParen,
    LBrace,
    RBrace,
    Semi,
}

#[derive(Debug, Clone)]
pub struct Token {
    pub kind: TokenKind,
    /// The exact source text of the token.
    pub text: String,
    pub span: Span,
}

/// The mathematical content of a `Token`.
pub struct TokenView {
    pub kind: TokenKind,
    pub text: Seq<char>,
    pub span: Span,
}

impl View for Token {
    type V = TokenView;

    open spec fn view(&self) -> TokenView {
        TokenView { kind: self.kind, text: self.text@, span: self.span }
    }
}

/// The views of a token list.
pub open spec fn token_views(ts: Seq<Token>) -> Seq<TokenView> {
    ts.map_values(|t: Token| t@)
}

// ---- character classes ------------------------------------------------------

/// Space, tab, line feed, form feed, carriage return.
pub open spec fn is_space(c: u8) -> bool {
    c == 32 || c == 9 || c == 10 || c == 12 || c == 13
}

pub open spec fn is_digit(c: u8) -> bool {
    48 <= c <= 57
}

pub open spec fn is_alpha(c: u8) -> bool {
    (65 <= c <= 90) || (97 <= c <= 122)
}

pub open spec fn starts_ident(c: u8) -> bool {
    is_alpha(c) || c == 95
}

pub open spec fn continues_ident(c: u8) -> bool {
    starts_ident(c) || is_digit(c)
}

fn space(c: u8) -> (r: bool)
    ensures
        r == is_space(c),
{
    c == 32 || c == 9 || c == 10 || c == 12 || c == 13
}

fn digit(c: u8) -> (r: bool)
    ensures
        r == is_digit(c),
{
    48 <= c && c <= 57
}

fn ident_start(c: u8) -> (r: bool)
    ensures
        r == starts_ident(c),
{
    (65 <= c && c <= 90) || (97 <= c && c <= 122) || c == 95
}

fn ident_continue(c: u8) -> (r: bool)
    ensures
        r == continues_ident(c),
{
    ident_start(c) || digit(c)
}

// ---- the token grammar -----------------------------------------------------

/// Index of the first byte at or after `i` that is a line feed, or the end.
pub open spec fn line_end(b: Seq<u8>, i: int) -> int
    decreases b.len() - i,
{
    if i < b.len() && b[i] != 10 {
        line_end(b, i + 1)
    } else {
        i
    }
}

/// End of the run of digits starting at `i`.
pub open spec fn digits_end(b: Seq<u8>, i: int) -> int
    decreases b.len() - i,
{
    if i < b.len() && is_digit(b[i]) {
        digits_end(b, i + 1)
    } else {
        i
    }
}

/// End of the run of identifier characters starting at `i`.
pub open spec fn ident_end(b: Seq<u8>, i: int) -> int
    decreases b.len() - i,
{
    if i < b.len() && continues_ident(b[i]) {
        ident_end(b, i + 1)
    } else {
        i
    }
}

/// Keywords are reserved; every other word is an identifier.
pub open spec fn word_kind(w: Seq<u8>) -> TokenKind {
    if w == seq![108u8, 101, 116] {
        TokenKind::Let
    } else if w == seq![105u8, 102] {
        TokenKind::If
    } else if w == seq![101u8, 108, 115, 101] {
        TokenKind::Else
    } else if w == seq![119u8, 104, 105, 108, 101] {
        TokenKind::While
    } else if w == seq![112u8, 114, 105, 110, 116] {
        TokenKind::Print
    } else {
        TokenKind::Ident
    }
}

/// The operator or punctuation token at `i` and its length in bytes; the
/// two-byte operators win over their one-byte prefixes.
pub open spec fn symbol_at(b: Seq<u8>, i: int) -> Option<(TokenKind, int)> {
    let c = b[i];
    let next_is_eq = i + 1 < b.len() && b[i + 1] == 61;
    if c == 43 {
        Some((TokenKind::Plus, 1))
    } else if c == 45 {
        Some((TokenKind::Minus, 1))
    } else if c == 42 {
        Some((TokenKind::Star, 1))
    } else if c == 47 {
        Some((TokenKind::Slash, 1))
    } else if c == 37 {
        Some((TokenKind::Percent, 1))
    } else if c == 61 && next_is_eq {
        Some((TokenKind::EqEq, 2))
    } else if c == 61 {
        Some((TokenKind::Assign, 1))
    } else if c == 33 && next_is_eq {
        Some((TokenKind::BangEq, 2))
    } else if c == 60 && next_is_eq {
        Some((TokenKind::LtEq, 2))
    } else if c == 60 {
        Some((TokenKind::Lt, 1))
    } else if c == 62 && next_is_eq {
        Some((TokenKind::GtEq, 2))
    } else if c == 62 {
        Some((TokenKind::Gt, 1))
    } else if c == 40 {
        Some((TokenKind::LParen, 1))
    } else if c == 41 {
        Some((TokenKind::RParen, 1))
    } else if c == 123 {
        Some((TokenKind::LBrace, 1))
    } else if c == 125 {
        Some((TokenKind::RBrace, 1))
    } else if c == 59 {
        Some((TokenKind::Semi, 1))
    } else {
        None
    }
}

/// Bytes read as characters one for one (all token bytes are ASCII).
pub open spec fn bytes_text(bs: Seq<u8>) -> Seq<char> {
    Seq::new(bs.len(), |j: int| bs[j] as char)
}

/// The token of kind `kind` covering bytes `[s, e)`.
pub open spec fn token_of(b: Seq<u8>, kind: TokenKind, s: int, e: int) -> TokenView {
    TokenView { kind, text: bytes_text(b.subrange(s, e)), span: Span { start: s as u32, end: e as u32 } }
}

pub open spec fn unexpected_text(c: u8) -> Seq<char> {
    "unexpected character '"@ + seq![c as char, '\'']
}

/// `t` in front of the tokens of `r`, or the error of `r`.
pub open spec fn prepend_token(t: TokenView, r: Result<Seq<TokenView>, ErrorView>) -> Result<
    Seq<TokenView>,
    ErrorView,
> {
    match r {
        Ok(ts) => Ok(seq![t] + ts),
        Err(e) => Err(e),
    }
}

/// The tokens of the source bytes from index `i` on: whitespace and `//`
/// line comments are skipped, digit runs are integers, words are keywords
/// or identifiers, and any other byte must start an operator.
pub open spec fn tokens_from(b: Seq<u8>, i: int) -> Result<Seq<TokenView>, ErrorView>
    decreases b.len() - i,
{
    if i < 0 || i >= b.len() {
        Ok(Seq::empty())
    } else {
        let c = b[i];
        if is_space(c) {
            tokens_from(b, i + 1)
        } else if c == 47 && i + 1 < b.len() && b[i + 1] == 47 {
            let e = line_end(b, i);
            if i < e <= b.len() {
                tokens_from(b, e)
            } else {
                Ok(Seq::empty())
            }
        } else if is_digit(c) {
            let e = digits_end(b, i);
            if i < e <= b.len() {
                prepend_token(token_of(b, TokenKind::Int, i, e), tokens_from(b, e))
            } else {
                Ok(Seq::empty())
            }
        } else if starts_ident(c) {
            let e = ident_end(b, i);
            if i < e <= b.len() {
                prepend_token(
                    token_of(b, word_kind(b.subrange(i, e)), i, e),
                    tokens_from(b, e),
                )
            } else {
                Ok(Seq::empty())
            }
        } else {
            match symbol_at(b, i) {
                Some((kind, n)) => if 0 < n && i + n <= b.len() {
                    prepend_token(token_of(b, kind, i, i + n), tokens_from(b, i + n))
                } else {
                    Ok(Seq::empty())
                },
                None => Err(
                    error_at(unexpected_text(c), Span { start: i as u32, end: (i + 1) as u32 }),
                ),
            }
        }
    }
}

/// The tokens of a whole source text.
pub open spec fn lexed(src: Seq<u8>) -> Result<Seq<TokenView>, ErrorView> {
    tokens_from(src, 0)
}

/// The lexer's result, viewed.
pub open spec fn lex_view(res: Result<Vec<Token>, CompileError>) -> Result<Seq<TokenView>, ErrorView> {
    match res {
        Ok(ts) => Ok(token_views(ts@)),
        Err(e) => Err(e@),
    }
}

/// `acc` in front of the tokens of `r`, or the error of `r`.
pub open spec fn prepend_tokens(acc: Seq<TokenView>, r: Result<Seq<TokenView>, ErrorView>) -> Result<
    Seq<TokenView>,
    ErrorView,
> {
    match r {
        Ok(ts) => Ok(acc + ts),
        Err(e) => Err(e),
    }
}

proof fn lemma_prepend_step(acc: Seq<TokenView>, t: TokenView, r: Result<Seq<TokenView>, ErrorView>)
    ensures
        prepend_tokens(acc, prepend_token(t, r)) == prepend_tokens(acc.push(t), r),
{
    if let Ok(ts) = r {
        assert(acc + (seq![t] + ts) =~= acc.push(t) + ts);
    }
}

/// Keyword or identifier kind of the word in `src[start..end]`.
fn word_kind_of(src: &[u8], start: usize, end: usize) -> (k: TokenKind)
    requires
        start <= end <= src.len(),
    ensures
        k == word_kind(src@.subrange(start as int, end as int)),
{
    let n = end - start;
    let ghost w = src@.subrange(start as int, end as int);
    if n == 3 && src[start] == 108 && src[start + 1] == 101 && src[start + 2] == 116 {
        assert(w =~= seq![108u8, 101, 116]);
        TokenKind::Let
    } else if n == 2 && src[start] == 105 && src[start + 1] == 102 {
        assert(w =~= seq![105u8, 102]);
        TokenKind::If
    } else if n == 4 && src[start] == 101 && src[start + 1] == 108 && src[start + 2] == 115
        && src[start + 3] == 101 {
        assert(w =~= seq![101u8, 108, 115, 101]);
        TokenKind::Else
    } else if n == 5 && src[start] == 119 && src[start + 1] == 104 && src[start + 2] == 105
        && src[start + 3] == 108 && src[start + 4] == 101 {
        assert(w =~= seq![119u8, 104, 105, 108, 101]);
        TokenKind::While
    } else if n == 5 && src[start] == 112 && src[start + 1] == 114 && src[start + 2] == 105
        && src[start + 3] == 110 && src[start + 4] == 116 {
        assert(w =~= seq![112u8, 114, 105, 110, 116]);
        TokenKind::Print
    } else {
        proof {
            let b = src@;
            let st = start as int;
            assert(w.len() == n);
            assert(forall|j: int| 0 <= j < w.len() ==> w[j] == b[st + j]);
            let k_let = seq![108u8, 101, 116];
            let k_if = seq![105u8, 102];
            let k_else = seq![101u8, 108, 115, 101];
            let k_while = seq![119u8, 104, 105, 108, 101];
            let k_print = seq![112u8, 114, 105, 110, 116];
            assert(w != k_let) by {
                if w == k_let {
                    assert(w[0] == 108 && w[1] == 101 && w[2] == 116);
                }
            }
            assert(w != k_if) by {
                if w == k_if {
                    assert(w[0] == 105 && w[1] == 102);
                }
            }
            assert(w != k_else) by {
                if w == k_else {
                    assert(w[0] == 101 && w[1] == 108 && w[2] == 115 && w[3] == 101);
                }
            }
            assert(w != k_while) by {
                if w == k_while {
                    assert(w[0] == 119 && w[1] == 104 && w[2] == 105 && w[3] == 108 && w[4] == 101);
                }
            }
            assert(w != k_print) by {
                if w == k_print {
                    assert(w[0] == 112 && w[1] == 114 && w[2] == 105 && w[3] == 110 && w[4] == 116);
                }
            }
        }
        TokenKind::Ident
    }
}

/// The operator or punctuation token at `i`, if any.
fn symbol(bytes: &[u8], i: usize) -> (r: Option<(TokenKind, usize)>)
    requires
        i < bytes.len(),
    ensures
        match r {
            Some((k, n)) => symbol_at(bytes@, i as int) == Some((k, n as int)),
            None => symbol_at(bytes@, i as int) is None,
        },
{
    let c = bytes[i];
    let two = i + 1 < bytes.len() && bytes[i + 1] == 61;
    if c == 43 {
        Some((TokenKind::Plus, 1))
    } else if c == 45 {
        Some((TokenKind::Minus, 1))
    } else if c == 42 {
        Some((TokenKind::Star, 1))
    } else if c == 47 {
        Some((TokenKind::Slash, 1))
    } else if c == 37 {
        Some((TokenKind::Percent, 1))
    } else if c == 61 && two {
        Some((TokenKind::EqEq, 2))
    } else if c == 61 {
        Some((TokenKind::Assign, 1))
    } else if c == 33 && two {
        Some((TokenKind::BangEq, 2))
    } else if c == 60 && two {
        Some((TokenKind::LtEq, 2))
    } else if c == 60 {
        Some((TokenKind::Lt, 1))
    } else if c == 62 && two {
        Some((TokenKind::GtEq, 2))
    } else if c == 62 {
        Some((TokenKind::Gt, 1))
    } else if c == 40 {
        Some((TokenKind::LParen, 1))
    } else if c == 41 {
        Some((TokenKind::RParen, 1))
    } else if c == 123 {
        Some((TokenKind::LBrace, 1))
    } else if c == 125 {
        Some((TokenKind::RBrace, 1))
    } else if c == 59 {
        Some((TokenKind::Semi, 1))
    } else {
        None
    }
}

/// Append the token of kind `kind` covering `src[start..end]`.
fn push(tokens: &mut Vec<Token>, kind: TokenKind, src: &[u8], start: u32, end: usize)
    requires
        start <= end <= src.len(),
        end <= u32::MAX,
    ensures
        token_views(final(tokens)@) == token_views(old(tokens)@).push(
            token_of(src@, kind, start as int, end as int),
        ),
{
    let mut text = String::new();
    let mut j: usize = start as usize;
    while j < end
        invariant
            start <= j <= end,
            end <= src.len(),
            text@ == bytes_text(src@.subrange(start as int, j as int)),
        decreases end - j,
    {
        text.push(src[j] as char);
        j = j + 1;
        assert(text@ =~= bytes_text(src@.subrange(start as int, j as int)));
    }
    let t = Token { kind, text, span: Span::new(start, end as u32) };
    tokens.push(t);
    assert(token_views(tokens@) =~= token_views(old(tokens)@).push(
        token_of(src@, kind, start as int, end as int),
    ));
}

/// Tokens of the source bytes.
pub fn lex_bytes(bytes: &[u8]) -> (res: Result<Vec<Token>, CompileError>)
    requires
        bytes.len() <= u32::MAX,
    ensures
        lex_view(res) == lexed(bytes@),
{
    let ghost b = bytes@;
    let mut tokens: Vec<Token> = Vec::new();
    let mut i: usize = 0;
    assert(token_views(tokens@) =~= Seq::<TokenView>::empty());
    assert(prepend_tokens(Seq::empty(), tokens_from(b, 0)) =~= tokens_from(b, 0)) by {
        if let Ok(ts) = tokens_from(b, 0) {
            assert(Seq::<TokenView>::empty() + ts =~= ts);
        }
    }
    while i < bytes.len()
        invariant
            i <= bytes.len(),
            bytes.len() <= u32::MAX,
            b == bytes@,
            lexed(b) == prepend_tokens(token_views(tokens@), tokens_from(b, i as int)),
        decreases bytes.len() - i,
    {
        let c = bytes[i];
        // skip whitespace
        if space(c) {
            i = i + 1;
            continue;
        }
        // skip // line comments
        if c == 47 && i + 1 < bytes.len() && bytes[i + 1] == 47 {
            let ghost start = i as int;
            while i < bytes.len() && bytes[i] != 10
                invariant
                    start <= i <= bytes.len(),
                    b == bytes@,
                    line_end(b, start) == line_end(b, i as int),
                decreases bytes.len() - i,
            {
                i = i + 1;
            }
            assert(line_end(b, start) == i) by {
                assert(line_end(b, start + 1) == line_end(b, start));
            }
            continue;
        }
        let start = i as u32;
        // integer literal
        if digit(c) {
            while i < bytes.len() && digit(bytes[i])
                invariant
                    start <= i <= bytes.len(),
                    b == bytes@,
                    digits_end(b, start as int) == digits_end(b, i as int),
                decreases bytes.len() - i,
            {
                i = i + 1;
            }
            let ghost t = token_of(b, TokenKind::Int, start as int, i as int);
            proof {
                lemma_prepend_step(token_views(tokens@), t, tokens_from(b, i as int));
            }
            push(&mut tokens, TokenKind::Int, bytes, start, i);
            continue;
        }
        // identifier / keyword
        if ident_start(c) {
            while i < bytes.len() && ident_continue(bytes[i])
                invariant
                    start <= i <= bytes.len(),
                    b == bytes@,
                    ident_end(b, start as int) == ident_end(b, i as int),
                decreases bytes.len() - i,
            {
                i = i + 1;
            }
            let kind = word_kind_of(bytes, start as usize, i);
            let ghost t = token_of(b, kind, start as int, i as int);
            proof {
                lemma_prepend_step(token_views(tokens@), t, tokens_from(b, i as int));
            }
            push(&mut tokens, kind, bytes, start, i);
            continue;
        }
        // operators & punctuation
        match symbol(bytes, i) {
            Some((kind, len)) => {
                i = i + len;
                let ghost t = token_of(b, kind, start as int, i as int);
                proof {
                    lemma_prepend_step(token_views(tokens@), t, tokens_from(b, i as int));
                }
                push(&mut tokens, kind, bytes, start, i);
            },
            None => {
                let mut m = String::new();
                m.append("unexpected character '");
                m.push(c as char);
                m.push('\'');
                assert(m@ =~= unexpected_text(c));
                return Err(CompileError::new(m, Span::new(start, start + 1)));
            },
        }
    }
    assert(tokens_from(b, i as int) == Ok::<Seq<TokenView>, ErrorView>(Seq::empty()));
    assert(token_views(tokens@) + Seq::<TokenView>::empty() =~= token_views(tokens@));
    Ok(tokens)
}

/// Source text to tokens, each tagged with its source span.
pub fn lex(src: &str) -> (res: Result<Vec<Token>, CompileError>)
    requires
        src.spec_bytes().len() <= u32::MAX,
    ensures
        lex_view(res) == lexed(src.spec_bytes()),
        res matches Ok(ts) ==> tokens_placed(src.spec_bytes(), token_views(ts@), 0),
{
    proof {
        lemma_tokens_placed(src.spec_bytes(), 0);
    }
    lex_bytes(src.as_bytes())
}

// ---- laws ----------------------------------------------------------------

/// Every token lies in the source at or after `from`, is non-empty, comes
/// after the tokens before it, and its text is exactly the source bytes its
/// span covers.
pub open spec fn tokens_placed(b: Seq<u8>, ts: Seq<TokenView>, from: int) -> bool {
    &&& forall|k: int|
        #![trigger ts[k]]
        0 <= k < ts.len() ==> {
            &&& from <= ts[k].span.start < ts[k].span.end <= b.len()
            &&& ts[k].text == bytes_text(b.subrange(ts[k].span.start as int, ts[k].span.end as int))
        }
    &&& forall|k: int, l: int|
        #![trigger ts[k], ts[l]]
        0 <= k < l < ts.len() ==> ts[k].span.end <= ts[l].span.start
}

proof fn lemma_placed_prepend(b: Seq<u8>, t: TokenView, rest: Seq<TokenView>, i: int, e: int)
    requires
        b.len() <= u32::MAX,
        0 <= i < e <= b.len(),
        t.span == (Span { start: i as u32, end: e as u32 }),
        t.text == bytes_text(b.subrange(i, e)),
        tokens_placed(b, rest, e),
    ensures
        tokens_placed(b, seq![t] + rest, i),
{
    let ts = seq![t] + rest;
    assert forall|k: int| #![trigger ts[k]] 0 <= k < ts.len() implies {
        &&& i <= ts[k].span.start < ts[k].span.end <= b.len()
        &&& ts[k].text == bytes_text(b.subrange(ts[k].span.start as int, ts[k].span.end as int))
    } by {
        if k > 0 {
            assert(ts[k] == rest[k - 1]);
        }
    }
    assert forall|k: int, l: int| #![trigger ts[k], ts[l]] 0 <= k < l < ts.len() implies ts[k].span.end
        <= ts[l].span.start by {
        assert(ts[l] == rest[l - 1]);
        if k > 0 {
            assert(ts[k] == rest[k - 1]);
        }
    }
}

/// Tokens point back at the source: each one covers a non-empty range of
/// the source, the ranges come in order without overlapping, and a token's
/// text is the source text of its span.
pub proof fn lemma_tokens_placed(b: Seq<u8>, i: int)
    requires
        b.len() <= u32::MAX,
        0 <= i,
    ensures
        tokens_from(b, i) matches Ok(ts) ==> tokens_placed(b, ts, i),
    decreases b.len() - i,
{
    if i < b.len() {
        let c = b[i];
        if is_space(c) {
            lemma_tokens_placed(b, i + 1);
        } else if c == 47 && i + 1 < b.len() && b[i + 1] == 47 {
            let e = line_end(b, i);
            if i < e <= b.len() {
                lemma_tokens_placed(b, e);
            }
        } else if is_digit(c) {
            let e = digits_end(b, i);
            if i < e <= b.len() {
                lemma_tokens_placed(b, e);
                if let Ok(rest) = tokens_from(b, e) {
                    lemma_placed_prepend(b, token_of(b, TokenKind::Int, i, e), rest, i, e);
                }
            }
        } else if starts_ident(c) {
            let e = ident_end(b, i);
            if i < e <= b.len() {
                lemma_tokens_placed(b, e);
                if let Ok(rest) = tokens_from(b, e) {
                    lemma_placed_prepend(
                        b,
                        token_of(b, word_kind(b.subrange(i, e)), i, e),
                        rest,
                        i,
                        e,
                    );
                }
            }
        } else if let Some((kind, n)) = symbol_at(b, i) {
            if 0 < n && i + n <= b.len() {
                lemma_tokens_placed(b, i + n);
                if let Ok(rest) = tokens_from(b, i + n) {
                    lemma_placed_prepend(b, token_of(b, kind, i, i + n), rest, i, i + n);
                }
            }
        }
    }
}

/// There are at most as many tokens as source bytes.
pub proof fn lemma_token_count(b: Seq<u8>, i: int)
    requires
        0 <= i <= b.len(),
    ensures
        tokens_from(b, i) matches Ok(ts) ==> ts.len() <= b.len() - i,
    decreases b.len() - i,
{
    if i < b.len() {
        let c = b[i];
        if is_space(c) {
            lemma_token_count(b, i + 1);
        } else if c == 47 && i + 1 < b.len() && b[i + 1] == 47 {
            let e = line_end(b, i);
            if i < e <= b.len() {
                lemma_token_count(b, e);
            }
        } else if is_digit(c) {
            let e = digits_end(b, i);
            if i < e <= b.len() {
                lemma_token_count(b, e);
            }
        } else if starts_ident(c) {
            let e = ident_end(b, i);
            if i < e <= b.len() {
                lemma_token_count(b, e);
            }
        } else if let Some((kind, n)) = symbol_at(b, i) {
            if 0 < n && i + n <= b.len() {
                lemma_token_count(b, i + n);
            }
        }
    }
}

} // verus!
