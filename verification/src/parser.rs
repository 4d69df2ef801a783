//! Recursive-descent parser: tokens to AST, every node spanned and id-tagged.
//!
//! Grammar:
//!
//! ```text
//! program    := stmt*
//! stmt       := "let" IDENT "=" expr ";"
//!             | IDENT "=" expr ";"
//!             | "if" "(" expr ")" block ("else" block)?
//!             | "while" "(" expr ")" block
//!             | "print" "(" expr ")" ";"
//! block      := "{" stmt* "}"
//! expr       := additive (cmp_op additive)*
//! additive   := multiplic (("+"|"-") multiplic)*
//! multiplic  := unary (("*"|"/"|"%") unary)*
//! unary      := "-" unary | primary
//! primary    := INT | IDENT | "(" expr ")"
//! ```
//!
//! Node ids are handed out in the order nodes are completed: children
//! before their parent, left to right.
use vstd::prelude::*;
use crate::ast::{BinOp, Expr, ExprKind, ExprKindV, ExprV, NodeId, Stmt, StmtKind, StmtKindV, StmtV, UnOp, expr_ids, expr_spans_in, expr_view, id_range, lemma_stmts_ids_len, span_in, stmt_ids, stmt_spans_in, stmt_view, stmts_ids, stmts_size, stmts_spans_in, stmts_view};
use crate::lexer::{Token, TokenKind, TokenView, token_views};
use crate::span::{CompileError, ErrorView, Span, error_at, merged};

verus! {

/// An expression parsed from position `p`: the expression, the position
/// after it and the next free node id.
pub type ExprParse = Result<(ExprV, int, int), ErrorView>;

/// A statement parsed from position `p`, as for `ExprParse`.
pub type StmtParse = Result<(StmtV, int, int), ErrorView>;

/// A block's statements, the span of its closing brace, the position after
/// it and the next free node id.
pub type BlockParse = Result<(Seq<StmtV>, Span, int, int), ErrorView>;

// ---- integer literals -------------------------------------------------------

pub open spec fn is_digit_char(c: char) -> bool {
    '0' <= c <= '9'
}

/// The value of a string of decimal digits.
pub open spec fn digits_value(d: Seq<char>) -> int
    decreases d.len(),
{
    if d.len() == 0 {
        0
    } else {
        digits_value(d.drop_last()) * 10 + (d.last() as int - 48)
    }
}

pub open spec fn all_digits(d: Seq<char>) -> bool {
    forall|i: int| 0 <= i < d.len() ==> is_digit_char(#[trigger] d[i])
}

/// How `str::parse::<i32>` reads a literal: an optional sign, then at least
/// one decimal digit, and the value must fit in 32 bits.
pub open spec fn i32_literal(t: Seq<char>) -> Option<i32> {
    let signed = t.len() > 0 && (t[0] == '-' || t[0] == '+');
    let d = if signed {
        t.drop_first()
    } else {
        t
    };
    let v = if signed && t[0] == '-' {
        -digits_value(d)
    } else {
        digits_value(d)
    };
    if d.len() == 0 || !all_digits(d) {
        None
    } else if i32::MIN <= v <= i32::MAX {
        Some(v as i32)
    } else {
        None
    }
}

// ---- token helpers -------------------------------------------------------

pub open spec fn kind_at(t: Seq<TokenView>, p: int) -> Option<TokenKind> {
    if 0 <= p < t.len() {
        Some(t[p].kind)
    } else {
        None
    }
}

/// The empty span just past the last token (or at 0 with no tokens).
pub open spec fn end_span(t: Seq<TokenView>) -> Span {
    if t.len() > 0 {
        Span { start: t.last().span.end, end: t.last().span.end }
    } else {
        Span { start: 0, end: 0 }
    }
}

/// "expected <what>, found '<token>'" at the token, or "..., found end of
/// input" just past the last token.
pub open spec fn expected_error(t: Seq<TokenView>, p: int, what: Seq<char>) -> ErrorView {
    if 0 <= p < t.len() {
        error_at("expected "@ + what + ", found '"@ + t[p].text + "'"@, t[p].span)
    } else {
        error_at("expected "@ + what + ", found end of input"@, end_span(t))
    }
}

pub open spec fn binary_node(op: BinOp, lhs: ExprV, rhs: ExprV, id: int) -> ExprV {
    ExprV {
        id: id as u32,
        span: merged(lhs.span, rhs.span),
        kind: ExprKindV::Binary { op, lhs: Box::new(lhs), rhs: Box::new(rhs) },
    }
}

pub open spec fn comparison_at(t: Seq<TokenView>, p: int) -> Option<BinOp> {
    match kind_at(t, p) {
        Some(TokenKind::EqEq) => Some(BinOp::Eq),
        Some(TokenKind::BangEq) => Some(BinOp::Ne),
        Some(TokenKind::Lt) => Some(BinOp::Lt),
        Some(TokenKind::LtEq) => Some(BinOp::Le),
        Some(TokenKind::Gt) => Some(BinOp::Gt),
        Some(TokenKind::GtEq) => Some(BinOp::Ge),
        _ => None,
    }
}

pub open spec fn additive_op_at(t: Seq<TokenView>, p: int) -> Option<BinOp> {
    match kind_at(t, p) {
        Some(TokenKind::Plus) => Some(BinOp::Add),
        Some(TokenKind::Minus) => Some(BinOp::Sub),
        _ => None,
    }
}

pub open spec fn multiplicative_op_at(t: Seq<TokenView>, p: int) -> Option<BinOp> {
    match kind_at(t, p) {
        Some(TokenKind::Star) => Some(BinOp::Mul),
        Some(TokenKind::Slash) => Some(BinOp::Div),
        Some(TokenKind::Percent) => Some(BinOp::Rem),
        _ => None,
    }
}

// ---- expressions -------------------------------------------------------

/// `expr := additive (cmp_op additive)*`
pub open spec fn expr_at(t: Seq<TokenView>, p: int, id: int) -> ExprParse
    decreases t.len() - p, 7nat,
{
    match additive_at(t, p, id) {
        Ok((lhs, p1, id1)) => if p < p1 <= t.len() {
            comparisons_from(t, lhs, p1, id1)
        } else {
            Ok((lhs, p1, id1))
        },
        Err(e) => Err(e),
    }
}

/// The `(cmp_op additive)*` tail of an expression whose left side is `lhs`.
pub open spec fn comparisons_from(t: Seq<TokenView>, lhs: ExprV, p: int, id: int) -> ExprParse
    decreases t.len() - p, 6nat,
{
    if p < 0 {
        Ok((lhs, p, id))
    } else {
        match comparison_at(t, p) {
            Some(op) => match additive_at(t, p + 1, id) {
                Ok((rhs, p2, id2)) => if p < p2 <= t.len() {
                    comparisons_from(t, binary_node(op, lhs, rhs, id2), p2, id2 + 1)
                } else {
                    Ok((lhs, p, id))
                },
                Err(e) => Err(e),
            },
            None => Ok((lhs, p, id)),
        }
    }
}

/// `additive := multiplic (("+"|"-") multiplic)*`
pub open spec fn additive_at(t: Seq<TokenView>, p: int, id: int) -> ExprParse
    decreases t.len() - p, 5nat,
{
    match multiplicative_at(t, p, id) {
        Ok((lhs, p1, id1)) => if p < p1 <= t.len() {
            additions_from(t, lhs, p1, id1)
        } else {
            Ok((lhs, p1, id1))
        },
        Err(e) => Err(e),
    }
}

pub open spec fn additions_from(t: Seq<TokenView>, lhs: ExprV, p: int, id: int) -> ExprParse
    decreases t.len() - p, 4nat,
{
    if p < 0 {
        Ok((lhs, p, id))
    } else {
        match additive_op_at(t, p) {
            Some(op) => match multiplicative_at(t, p + 1, id) {
                Ok((rhs, p2, id2)) => if p < p2 <= t.len() {
                    additions_from(t, binary_node(op, lhs, rhs, id2), p2, id2 + 1)
                } else {
                    Ok((lhs, p, id))
                },
                Err(e) => Err(e),
            },
            None => Ok((lhs, p, id)),
        }
    }
}

/// `multiplic := unary (("*"|"/"|"%") unary)*`
pub open spec fn multiplicative_at(t: Seq<TokenView>, p: int, id: int) -> ExprParse
    decreases t.len() - p, 3nat,
{
    match unary_at(t, p, id) {
        Ok((lhs, p1, id1)) => if p < p1 <= t.len() {
            multiplications_from(t, lhs, p1, id1)
        } else {
            Ok((lhs, p1, id1))
        },
        Err(e) => Err(e),
    }
}

pub open spec fn multiplications_from(t: Seq<TokenView>, lhs: ExprV, p: int, id: int) -> ExprParse
    decreases t.len() - p, 2nat,
{
    if p < 0 {
        Ok((lhs, p, id))
    } else {
        match multiplicative_op_at(t, p) {
            Some(op) => match unary_at(t, p + 1, id) {
                Ok((rhs, p2, id2)) => if p < p2 <= t.len() {
                    multiplications_from(t, binary_node(op, lhs, rhs, id2), p2, id2 + 1)
                } else {
                    Ok((lhs, p, id))
                },
                Err(e) => Err(e),
            },
            None => Ok((lhs, p, id)),
        }
    }
}

/// `unary := "-" unary | primary`
pub open spec fn unary_at(t: Seq<TokenView>, p: int, id: int) -> ExprParse
    decreases t.len() - p, 1nat,
{
    if p >= 0 && kind_at(t, p) == Some(TokenKind::Minus) {
        match unary_at(t, p + 1, id) {
            Ok((operand, p1, id1)) => Ok(
                (
                    ExprV {
                        id: id1 as u32,
                        span: merged(t[p].span, operand.span),
                        kind: ExprKindV::Unary { op: UnOp::Neg, operand: Box::new(operand) },
                    },
                    p1,
                    id1 + 1,
                ),
            ),
            Err(e) => Err(e),
        }
    } else {
        primary_at(t, p, id)
    }
}

/// `primary := INT | IDENT | "(" expr ")"`
pub open spec fn primary_at(t: Seq<TokenView>, p: int, id: int) -> ExprParse
    decreases t.len() - p, 0nat,
{
    match kind_at(t, p) {
        Some(TokenKind::Int) => match i32_literal(t[p].text) {
            Some(value) => Ok(
                (ExprV { id: id as u32, span: t[p].span, kind: ExprKindV::Int { value } }, p + 1, id
                    + 1),
            ),
            None => Err(error_at("integer literal does not fit in 32 bits"@, t[p].span)),
        },
        Some(TokenKind::Ident) => Ok(
            (
                ExprV { id: id as u32, span: t[p].span, kind: ExprKindV::Var { name: t[p].text } },
                p + 1,
                id + 1,
            ),
        ),
        Some(TokenKind::LParen) => match expr_at(t, p + 1, id) {
            Ok((inner, p1, id1)) => if kind_at(t, p1) == Some(TokenKind::RParen) {
                Ok((inner, p1 + 1, id1))
            } else {
                Err(expected_error(t, p1, "')'"@))
            },
            Err(e) => Err(e),
        },
        _ => Err(expected_error(t, p, "an expression"@)),
    }
}

// ---- statements ----------------------------------------------------------

pub open spec fn stmt_node(id: int, span: Span, kind: StmtKindV) -> StmtV {
    StmtV { id: id as u32, span, kind }
}

/// `stmt`: chosen by its first token.
pub open spec fn stmt_at(t: Seq<TokenView>, p: int, id: int) -> StmtParse
    decreases t.len() - p, 2nat,
{
    match kind_at(t, p) {
        Some(TokenKind::Let) => let_at(t, p, id),
        Some(TokenKind::If) => if_at(t, p, id),
        Some(TokenKind::While) => while_at(t, p, id),
        Some(TokenKind::Print) => print_at(t, p, id),
        Some(TokenKind::Ident) => assign_at(t, p, id),
        _ => Err(expected_error(t, p, "a statement"@)),
    }
}

/// `"let" IDENT "=" expr ";"` starting at the `let` at `p`.
pub open spec fn let_at(t: Seq<TokenView>, p: int, id: int) -> StmtParse {
    if kind_at(t, p + 1) != Some(TokenKind::Ident) {
        Err(expected_error(t, p + 1, "a variable name"@))
    } else if kind_at(t, p + 2) != Some(TokenKind::Assign) {
        Err(expected_error(t, p + 2, "'='"@))
    } else {
        match expr_at(t, p + 3, id) {
            Ok((init, p1, id1)) => if kind_at(t, p1) == Some(TokenKind::Semi) {
                Ok(
                    (
                        stmt_node(
                            id1,
                            merged(t[p].span, t[p1].span),
                            StmtKindV::Let { name: t[p + 1].text, init },
                        ),
                        p1 + 1,
                        id1 + 1,
                    ),
                )
            } else {
                Err(expected_error(t, p1, "';'"@))
            },
            Err(e) => Err(e),
        }
    }
}

/// `IDENT "=" expr ";"` starting at the name at `p`.
pub open spec fn assign_at(t: Seq<TokenView>, p: int, id: int) -> StmtParse {
    if kind_at(t, p + 1) != Some(TokenKind::Assign) {
        Err(expected_error(t, p + 1, "'='"@))
    } else {
        match expr_at(t, p + 2, id) {
            Ok((value, p1, id1)) => if kind_at(t, p1) == Some(TokenKind::Semi) {
                Ok(
                    (
                        stmt_node(
                            id1,
                            merged(t[p].span, t[p1].span),
                            StmtKindV::Assign { name: t[p].text, value },
                        ),
                        p1 + 1,
                        id1 + 1,
                    ),
                )
            } else {
                Err(expected_error(t, p1, "';'"@))
            },
            Err(e) => Err(e),
        }
    }
}

/// `"print" "(" expr ")" ";"` starting at the `print` at `p`.
pub open spec fn print_at(t: Seq<TokenView>, p: int, id: int) -> StmtParse {
    if kind_at(t, p + 1) != Some(TokenKind::LParen) {
        Err(expected_error(t, p + 1, "'('"@))
    } else {
        match expr_at(t, p + 2, id) {
            Ok((value, p1, id1)) => if kind_at(t, p1) != Some(TokenKind::RParen) {
                Err(expected_error(t, p1, "')'"@))
            } else if kind_at(t, p1 + 1) != Some(TokenKind::Semi) {
                Err(expected_error(t, p1 + 1, "';'"@))
            } else {
                Ok(
                    (
                        stmt_node(
                            id1,
                            merged(t[p].span, t[p1 + 1].span),
                            StmtKindV::Print { value },
                        ),
                        p1 + 2,
                        id1 + 1,
                    ),
                )
            },
            Err(e) => Err(e),
        }
    }
}

/// `"(" expr ")"` of an `if` or `while` whose keyword is at `p`: the
/// condition and the position after the `)`.
pub open spec fn condition_at(t: Seq<TokenView>, p: int, id: int) -> ExprParse {
    if kind_at(t, p + 1) != Some(TokenKind::LParen) {
        Err(expected_error(t, p + 1, "'('"@))
    } else {
        match expr_at(t, p + 2, id) {
            Ok((cond, p1, id1)) => if kind_at(t, p1) != Some(TokenKind::RParen) {
                Err(expected_error(t, p1, "')'"@))
            } else {
                Ok((cond, p1 + 1, id1))
            },
            Err(e) => Err(e),
        }
    }
}

/// `"if" "(" expr ")" block ("else" block)?` starting at the `if` at `p`.
pub open spec fn if_at(t: Seq<TokenView>, p: int, id: int) -> StmtParse
    decreases t.len() - p, 1nat,
{
    match condition_at(t, p, id) {
        Ok((cond, q, id1)) => if p < q <= t.len() {
            match block_at(t, q, id1) {
                Ok((then_body, then_end, p2, id2)) => if kind_at(t, p2) == Some(TokenKind::Else) {
                    if p < p2 + 1 <= t.len() {
                        match block_at(t, p2 + 1, id2) {
                            Ok((else_body, else_end, p3, id3)) => Ok(
                                (
                                    stmt_node(
                                        id3,
                                        merged(t[p].span, else_end),
                                        StmtKindV::If {
                                            cond,
                                            then_body,
                                            else_body: Some(else_body),
                                        },
                                    ),
                                    p3,
                                    id3 + 1,
                                ),
                            ),
                            Err(e) => Err(e),
                        }
                    } else {
                        Err(expected_error(t, p2 + 1, "'{'"@))
                    }
                } else {
                    Ok(
                        (
                            stmt_node(
                                id2,
                                merged(t[p].span, then_end),
                                StmtKindV::If { cond, then_body, else_body: None },
                            ),
                            p2,
                            id2 + 1,
                        ),
                    )
                },
                Err(e) => Err(e),
            }
        } else {
            Err(expected_error(t, q, "'{'"@))
        },
        Err(e) => Err(e),
    }
}

/// `"while" "(" expr ")" block` starting at the `while` at `p`.
pub open spec fn while_at(t: Seq<TokenView>, p: int, id: int) -> StmtParse
    decreases t.len() - p, 1nat,
{
    match condition_at(t, p, id) {
        Ok((cond, q, id1)) => if p < q <= t.len() {
            match block_at(t, q, id1) {
                Ok((body, body_end, p2, id2)) => Ok(
                    (
                        stmt_node(id2, merged(t[p].span, body_end), StmtKindV::While { cond, body }),
                        p2,
                        id2 + 1,
                    ),
                ),
                Err(e) => Err(e),
            }
        } else {
            Err(expected_error(t, q, "'{'"@))
        },
        Err(e) => Err(e),
    }
}

/// `block := "{" stmt* "}"` starting at position `p`.
pub open spec fn block_at(t: Seq<TokenView>, p: int, id: int) -> BlockParse
    decreases t.len() - p, 4nat,
{
    if kind_at(t, p) != Some(TokenKind::LBrace) {
        Err(expected_error(t, p, "'{'"@))
    } else {
        block_items_from(t, p + 1, id)
    }
}

/// The statements of a block from position `p` up to and including its
/// closing brace.
pub open spec fn block_items_from(t: Seq<TokenView>, p: int, id: int) -> BlockParse
    decreases t.len() - p, 3nat,
{
    if kind_at(t, p) == Some(TokenKind::RBrace) {
        Ok((Seq::empty(), t[p].span, p + 1, id))
    } else if p < 0 || p >= t.len() {
        Err(error_at("unclosed block: expected '}'"@, end_span(t)))
    } else {
        match stmt_at(t, p, id) {
            Ok((s, p1, id1)) => if p < p1 <= t.len() {
                match block_items_from(t, p1, id1) {
                    Ok((ss, close, p2, id2)) => Ok((seq![s] + ss, close, p2, id2)),
                    Err(e) => Err(e),
                }
            } else {
                Ok((seq![s], t[p].span, p1, id1))
            },
            Err(e) => Err(e),
        }
    }
}

/// `program := stmt*` from position `p` to the end of the tokens.
pub open spec fn program_from(t: Seq<TokenView>, p: int, id: int) -> Result<Seq<StmtV>, ErrorView>
    decreases t.len() - p,
{
    if p < 0 || p >= t.len() {
        Ok(Seq::empty())
    } else {
        match stmt_at(t, p, id) {
            Ok((s, p1, id1)) => if p < p1 <= t.len() {
                match program_from(t, p1, id1) {
                    Ok(ss) => Ok(seq![s] + ss),
                    Err(e) => Err(e),
                }
            } else {
                Ok(seq![s])
            },
            Err(e) => Err(e),
        }
    }
}

/// The AST of a whole token list.
pub open spec fn parsed(t: Seq<TokenView>) -> Result<Seq<StmtV>, ErrorView> {
    program_from(t, 0, 0)
}

// ---- executable parser ---------------------------------------------------

/// Values of digit strings are kept up to this cap while scanning.
const VALUE_CAP: u64 = 0x8000_0001;

proof fn lemma_digits_take(d: Seq<char>, k: int)
    requires
        0 <= k < d.len(),
    ensures
        digits_value(d.take(k + 1)) == digits_value(d.take(k)) * 10 + (d[k] as int - 48),
{
    assert(d.take(k + 1).drop_last() =~= d.take(k));
}

/// Read an integer literal the way `str::parse::<i32>` does.
fn parse_i32(text: &str) -> (r: Option<i32>)
    ensures
        r == i32_literal(text@),
{
    let n = text.unicode_len();
    if n == 0 {
        return None;
    }
    let first = text.get_char(0);
    let signed = first == '-' || first == '+';
    let negative = first == '-';
    let start: usize = if signed {
        1
    } else {
        0
    };
    let ghost t = text@;
    let ghost d = if signed {
        t.drop_first()
    } else {
        t
    };
    assert(d.len() == n - start);
    assert(forall|j: int| 0 <= j < d.len() ==> d[j] == t[j + start]);
    if start >= n {
        return None;
    }
    let mut acc: u64 = 0;
    let mut i: usize = start;
    while i < n
        invariant
            start <= i <= n,
            n == t.len(),
            d.len() == n - start,
            t == text@,
            signed == (t.len() > 0 && (t[0] == '-' || t[0] == '+')),
            d == (if signed {
                t.drop_first()
            } else {
                t
            }),
            forall|j: int| 0 <= j < d.len() ==> d[j] == t[j + start],
            forall|j: int| 0 <= j < i - start ==> is_digit_char(#[trigger] d[j]),
            acc == (if digits_value(d.take(i - start)) < VALUE_CAP {
                digits_value(d.take(i - start))
            } else {
                VALUE_CAP as int
            }),
        decreases n - i,
    {
        let c = text.get_char(i);
        if !('0' <= c && c <= '9') {
            assert(!is_digit_char(d[i - start]));
            assert(!all_digits(d));
            assert(i32_literal(t) is None);
            return None;
        }
        proof {
            lemma_digits_take(d, i - start);
            assert(digits_value(d.take(i - start)) >= 0) by {
                lemma_digits_nonneg(d.take(i - start));
            }
        }
        let dv = (c as u32 - 48) as u64;
        acc = acc * 10 + dv;
        if acc > VALUE_CAP {
            acc = VALUE_CAP;
        }
        i = i + 1;
    }
    assert(d.take(n - start) =~= d);
    if negative {
        if acc <= 0x8000_0000 {
            Some((0i64 - acc as i64) as i32)
        } else {
            None
        }
    } else {
        if acc <= 0x7fff_ffff {
            Some(acc as i32)
        } else {
            None
        }
    }
}

proof fn lemma_digits_nonneg(d: Seq<char>)
    requires
        forall|j: int| 0 <= j < d.len() ==> is_digit_char(#[trigger] d[j]),
    ensures
        digits_value(d) >= 0,
    decreases d.len(),
{
    if d.len() > 0 {
        lemma_digits_nonneg(d.drop_last());
    }
}

pub open spec fn expr_outcome(res: Result<Expr, CompileError>, pos: usize, id: NodeId) -> ExprParse {
    match res {
        Ok(e) => Ok((expr_view(e), pos as int, id as int)),
        Err(e) => Err(e@),
    }
}

pub open spec fn stmt_outcome(res: Result<Stmt, CompileError>, pos: usize, id: NodeId) -> StmtParse {
    match res {
        Ok(s) => Ok((stmt_view(s), pos as int, id as int)),
        Err(e) => Err(e@),
    }
}

pub open spec fn block_outcome(res: Result<(Vec<Stmt>, Span), CompileError>, pos: usize, id: NodeId) -> BlockParse {
    match res {
        Ok((ss, close)) => Ok((stmts_view(ss@), close, pos as int, id as int)),
        Err(e) => Err(e@),
    }
}

/// `acc` in front of the statements of a block parse.
pub open spec fn prepend_block(acc: Seq<StmtV>, r: BlockParse) -> BlockParse {
    match r {
        Ok((ss, close, p, id)) => Ok((acc + ss, close, p, id)),
        Err(e) => Err(e),
    }
}

/// `acc` in front of the statements of a program parse.
pub open spec fn prepend_program(acc: Seq<StmtV>, r: Result<Seq<StmtV>, ErrorView>) -> Result<
    Seq<StmtV>,
    ErrorView,
> {
    match r {
        Ok(ss) => Ok(acc + ss),
        Err(e) => Err(e),
    }
}

pub open spec fn program_outcome(res: Result<Vec<Stmt>, CompileError>) -> Result<Seq<StmtV>, ErrorView> {
    match res {
        Ok(ss) => Ok(stmts_view(ss@)),
        Err(e) => Err(e@),
    }
}

struct Parser<'a> {
    tokens: &'a [Token],
    pos: usize,
    next_id: NodeId,
}

impl<'a> Parser<'a> {
    spec fn toks(&self) -> Seq<TokenView> {
        token_views(self.tokens@)
    }

    /// The position stays inside the tokens and never more nodes than
    /// consumed tokens have been numbered, so ids fit in `NodeId`.
    spec fn wf(&self) -> bool {
        &&& self.tokens.len() < u32::MAX
        &&& self.pos <= self.tokens.len()
        &&& self.next_id <= self.pos
    }

    /// `self` is a later state of the parser `before`: same tokens, no going
    /// back, and no more nodes numbered than tokens consumed.
    spec fn follows(&self, before: &Self) -> bool {
        &&& self.tokens == before.tokens
        &&& self.wf()
        &&& before.pos <= self.pos
        &&& self.next_id - before.next_id <= self.pos - before.pos
    }

    // ---- token helpers ---------------------------------------------------

    fn at_end(&self) -> (b: bool)
        ensures
            b == (self.pos >= self.tokens.len()),
    {
        self.pos >= self.tokens.len()
    }

    fn peek(&self) -> (r: Option<&'a Token>)
        ensures
            match r {
                Some(t) => self.pos < self.tokens.len() && *t == self.tokens@[self.pos as int],
                None => self.pos >= self.tokens.len(),
            },
    {
        let toks = self.tokens;
        if self.pos < toks.len() {
            Some(&toks[self.pos])
        } else {
            None
        }
    }

    fn peek_kind(&self) -> (r: Option<TokenKind>)
        ensures
            r == kind_at(self.toks(), self.pos as int),
    {
        match self.peek() {
            Some(t) => Some(t.kind),
            None => None,
        }
    }

    fn advance(&mut self) -> (t: &'a Token)
        requires
            old(self).pos < old(self).tokens.len(),
        ensures
            *t == old(self).tokens@[old(self).pos as int],
            final(self).pos == old(self).pos + 1,
            final(self).tokens == old(self).tokens,
            final(self).next_id == old(self).next_id,
    {
        let toks = self.tokens;
        let t = &toks[self.pos];
        self.pos = self.pos + 1;
        t
    }

    fn check(&mut self, kind: TokenKind) -> (b: bool)
        requires
            old(self).wf(),
        ensures
            b == (kind_at(old(self).toks(), old(self).pos as int) == Some(kind)),
            final(self).pos == old(self).pos + if b {
                1int
            } else {
                0int
            },
            final(self).tokens == old(self).tokens,
            final(self).next_id == old(self).next_id,
    {
        match self.peek_kind() {
            Some(k) => {
                if k == kind {
                    self.pos = self.pos + 1;
                    true
                } else {
                    false
                }
            },
            None => false,
        }
    }

    /// "expected <what>, found ..." at the current position.
    fn found_error(&self, what: &str) -> (e: CompileError)
        ensures
            e@ == expected_error(self.toks(), self.pos as int, what@),
    {
        let mut m = String::new();
        m.append("expected ");
        m.append(what);
        match self.peek() {
            Some(t) => {
                m.append(", found '");
                m.append(t.text.as_str());
                m.append("'");
                CompileError::new(m, t.span)
            },
            None => {
                m.append(", found end of input");
                CompileError::new(m, self.eof_span())
            },
        }
    }

    fn expect(&mut self, kind: TokenKind, what: &str) -> (r: Result<&'a Token, CompileError>)
        requires
            old(self).wf(),
        ensures
            final(self).tokens == old(self).tokens,
            final(self).next_id == old(self).next_id,
            match r {
                Ok(t) => {
                    &&& kind_at(old(self).toks(), old(self).pos as int) == Some(kind)
                    &&& *t == old(self).tokens@[old(self).pos as int]
                    &&& final(self).pos == old(self).pos + 1
                },
                Err(e) => {
                    &&& kind_at(old(self).toks(), old(self).pos as int) != Some(kind)
                    &&& e@ == expected_error(old(self).toks(), old(self).pos as int, what@)
                    &&& final(self).pos == old(self).pos
                },
            },
    {
        match self.peek() {
            Some(t) => {
                if t.kind == kind {
                    Ok(self.advance())
                } else {
                    Err(self.found_error(what))
                }
            },
            None => Err(self.found_error(what)),
        }
    }

    fn eof_span(&self) -> (s: Span)
        ensures
            s == end_span(self.toks()),
    {
        if self.tokens.len() > 0 {
            let t = &self.tokens[self.tokens.len() - 1];
            Span::new(t.span.end, t.span.end)
        } else {
            Span::new(0, 0)
        }
    }

    fn id(&mut self) -> (id: NodeId)
        requires
            old(self).next_id < old(self).pos,
            old(self).wf(),
        ensures
            id == old(self).next_id,
            final(self).next_id == old(self).next_id + 1,
            final(self).pos == old(self).pos,
            final(self).tokens == old(self).tokens,
    {
        let id = self.next_id;
        self.next_id = self.next_id + 1;
        id
    }
}

impl<'a> Parser<'a> {
    // ---- expressions (precedence climbing) ------------------------------

    spec fn expr_here(&self) -> ExprParse {
        expr_at(self.toks(), self.pos as int, self.next_id as int)
    }

    spec fn comparisons_here(&self, lhs: Expr) -> ExprParse {
        comparisons_from(self.toks(), expr_view(lhs), self.pos as int, self.next_id as int)
    }

    spec fn comparison_here(&self) -> Option<BinOp> {
        comparison_at(self.toks(), self.pos as int)
    }

    fn expr(&mut self) -> (res: Result<Expr, CompileError>)
        requires
            old(self).wf(),
        ensures
            final(self).follows(old(self)),
            expr_outcome(res, final(self).pos, final(self).next_id) == old(self).expr_here(),
            res is Ok ==> old(self).pos < final(self).pos,
        decreases old(self).tokens.len() - old(self).pos, 4nat,
    {
        let ghost start = *self;
        let mut lhs = self.additive()?;
        loop
            invariant
                start == *old(self),
                self.follows(&start),
                start.pos < self.pos,
                start.expr_here() == self.comparisons_here(lhs),
            decreases self.tokens.len() - self.pos,
        {
            match self.cmp_op() {
                Some(op) => {
                    self.pos = self.pos + 1;
                    let rhs = self.additive()?;
                    lhs = self.binary(op, lhs, rhs);
                },
                None => {
                    return Ok(lhs);
                },
            }
        }
    }

    fn cmp_op(&self) -> (r: Option<BinOp>)
        ensures
            r == self.comparison_here(),
    {
        match self.peek_kind() {
            Some(TokenKind::EqEq) => Some(BinOp::Eq),
            Some(TokenKind::BangEq) => Some(BinOp::Ne),
            Some(TokenKind::Lt) => Some(BinOp::Lt),
            Some(TokenKind::LtEq) => Some(BinOp::Le),
            Some(TokenKind::Gt) => Some(BinOp::Gt),
            Some(TokenKind::GtEq) => Some(BinOp::Ge),
            _ => None,
        }
    }

    fn additive(&mut self) -> (res: Result<Expr, CompileError>)
        requires
            old(self).wf(),
        ensures
            final(self).follows(old(self)),
            expr_outcome(res, final(self).pos, final(self).next_id) == additive_at(
                old(self).toks(),
                old(self).pos as int,
                old(self).next_id as int,
            ),
            res is Ok ==> old(self).pos < final(self).pos,
        decreases old(self).tokens.len() - old(self).pos, 3nat,
    {
        let ghost t = self.toks();
        let ghost p0 = self.pos as int;
        let ghost id0 = self.next_id as int;
        let ghost start = *self;
        let mut lhs = self.multiplicative()?;
        loop
            invariant
                start == *old(self),
                self.follows(&start),
                p0 == start.pos,
                id0 == start.next_id,
                t == start.toks(),
                p0 < self.pos,
                additive_at(t, p0, id0) == additions_from(
                    t,
                    expr_view(lhs),
                    self.pos as int,
                    self.next_id as int,
                ),
            decreases self.tokens.len() - self.pos,
        {
            let op = match self.peek_kind() {
                Some(TokenKind::Plus) => BinOp::Add,
                Some(TokenKind::Minus) => BinOp::Sub,
                _ => {
                    return Ok(lhs);
                },
            };
            self.pos = self.pos + 1;
            let rhs = self.multiplicative()?;
            lhs = self.binary(op, lhs, rhs);
        }
    }

    fn multiplicative(&mut self) -> (res: Result<Expr, CompileError>)
        requires
            old(self).wf(),
        ensures
            final(self).follows(old(self)),
            expr_outcome(res, final(self).pos, final(self).next_id) == multiplicative_at(
                old(self).toks(),
                old(self).pos as int,
                old(self).next_id as int,
            ),
            res is Ok ==> old(self).pos < final(self).pos,
        decreases old(self).tokens.len() - old(self).pos, 2nat,
    {
        let ghost t = self.toks();
        let ghost p0 = self.pos as int;
        let ghost id0 = self.next_id as int;
        let ghost start = *self;
        let mut lhs = self.unary()?;
        loop
            invariant
                start == *old(self),
                self.follows(&start),
                p0 == start.pos,
                id0 == start.next_id,
                t == start.toks(),
                p0 < self.pos,
                multiplicative_at(t, p0, id0) == multiplications_from(
                    t,
                    expr_view(lhs),
                    self.pos as int,
                    self.next_id as int,
                ),
            decreases self.tokens.len() - self.pos,
        {
            let op = match self.peek_kind() {
                Some(TokenKind::Star) => BinOp::Mul,
                Some(TokenKind::Slash) => BinOp::Div,
                Some(TokenKind::Percent) => BinOp::Rem,
                _ => {
                    return Ok(lhs);
                },
            };
            self.pos = self.pos + 1;
            let rhs = self.unary()?;
            lhs = self.binary(op, lhs, rhs);
        }
    }

    fn unary(&mut self) -> (res: Result<Expr, CompileError>)
        requires
            old(self).wf(),
        ensures
            final(self).follows(old(self)),
            expr_outcome(res, final(self).pos, final(self).next_id) == unary_at(
                old(self).toks(),
                old(self).pos as int,
                old(self).next_id as int,
            ),
            res is Ok ==> old(self).pos < final(self).pos,
        decreases old(self).tokens.len() - old(self).pos, 1nat,
    {
        if self.peek_kind() == Some(TokenKind::Minus) {
            let minus = self.advance();
            let operand = self.unary()?;
            let id = self.id();
            return Ok(
                Expr {
                    id,
                    span: minus.span.merge(operand.span),
                    kind: ExprKind::Unary { op: UnOp::Neg, operand: Box::new(operand) },
                },
            );
        }
        self.primary()
    }

    fn primary(&mut self) -> (res: Result<Expr, CompileError>)
        requires
            old(self).wf(),
        ensures
            final(self).follows(old(self)),
            expr_outcome(res, final(self).pos, final(self).next_id) == primary_at(
                old(self).toks(),
                old(self).pos as int,
                old(self).next_id as int,
            ),
            res is Ok ==> old(self).pos < final(self).pos,
        decreases old(self).tokens.len() - old(self).pos, 0nat,
    {
        match self.peek_kind() {
            Some(TokenKind::Int) => {
                let t = self.advance();
                let value = match parse_i32(t.text.as_str()) {
                    Some(v) => v,
                    None => {
                        return Err(
                            CompileError::new(
                                String::from_str("integer literal does not fit in 32 bits"),
                                t.span,
                            ),
                        );
                    },
                };
                let id = self.id();
                Ok(Expr { id, span: t.span, kind: ExprKind::Int { value } })
            },
            Some(TokenKind::Ident) => {
                let t = self.advance();
                let id = self.id();
                Ok(Expr { id, span: t.span, kind: ExprKind::Var { name: t.text.clone() } })
            },
            Some(TokenKind::LParen) => {
                self.pos = self.pos + 1;
                let inner = self.expr()?;
                self.expect(TokenKind::RParen, "')'")?;
                Ok(inner)
            },
            _ => Err(self.found_error("an expression")),
        }
    }

    fn binary(&mut self, op: BinOp, lhs: Expr, rhs: Expr) -> (e: Expr)
        requires
            old(self).wf(),
            old(self).next_id < old(self).pos,
        ensures
            expr_view(e) == binary_node(op, expr_view(lhs), expr_view(rhs), old(self).next_id as int),
            final(self).next_id == old(self).next_id + 1,
            final(self).pos == old(self).pos,
            final(self).tokens == old(self).tokens,
    {
        let id = self.id();
        let span = lhs.span.merge(rhs.span);
        Expr { id, span, kind: ExprKind::Binary { op, lhs: Box::new(lhs), rhs: Box::new(rhs) } }
    }
}

impl<'a> Parser<'a> {
    // ---- statements ----------------------------------------------------

    spec fn stmt_here(&self) -> StmtParse {
        stmt_at(self.toks(), self.pos as int, self.next_id as int)
    }

    fn stmt(&mut self) -> (res: Result<Stmt, CompileError>)
        requires
            old(self).wf(),
        ensures
            final(self).follows(old(self)),
            stmt_outcome(res, final(self).pos, final(self).next_id) == old(self).stmt_here(),
            res is Ok ==> old(self).pos < final(self).pos,
        decreases old(self).tokens.len() - old(self).pos, 2nat,
    {
        match self.peek_kind() {
            Some(TokenKind::Let) => self.let_stmt(),
            Some(TokenKind::If) => self.if_stmt(),
            Some(TokenKind::While) => self.while_stmt(),
            Some(TokenKind::Print) => self.print_stmt(),
            Some(TokenKind::Ident) => self.assign_stmt(),
            _ => Err(self.found_error("a statement")),
        }
    }

    fn let_stmt(&mut self) -> (res: Result<Stmt, CompileError>)
        requires
            old(self).wf(),
            kind_at(old(self).toks(), old(self).pos as int) == Some(TokenKind::Let),
        ensures
            final(self).follows(old(self)),
            stmt_outcome(res, final(self).pos, final(self).next_id) == let_at(
                old(self).toks(),
                old(self).pos as int,
                old(self).next_id as int,
            ),
            res is Ok ==> old(self).pos < final(self).pos,
    {
        let kw = self.advance();  // `let`
        let name_tok = self.expect(TokenKind::Ident, "a variable name")?;
        self.expect(TokenKind::Assign, "'='")?;
        let init = self.expr()?;
        let semi = self.expect(TokenKind::Semi, "';'")?;
        let id = self.id();
        Ok(
            Stmt {
                id,
                span: kw.span.merge(semi.span),
                kind: StmtKind::Let { name: name_tok.text.clone(), init },
            },
        )
    }

    fn assign_stmt(&mut self) -> (res: Result<Stmt, CompileError>)
        requires
            old(self).wf(),
            kind_at(old(self).toks(), old(self).pos as int) == Some(TokenKind::Ident),
        ensures
            final(self).follows(old(self)),
            stmt_outcome(res, final(self).pos, final(self).next_id) == assign_at(
                old(self).toks(),
                old(self).pos as int,
                old(self).next_id as int,
            ),
            res is Ok ==> old(self).pos < final(self).pos,
    {
        let name_tok = self.advance();  // IDENT
        self.expect(TokenKind::Assign, "'='")?;
        let value = self.expr()?;
        let semi = self.expect(TokenKind::Semi, "';'")?;
        let id = self.id();
        Ok(
            Stmt {
                id,
                span: name_tok.span.merge(semi.span),
                kind: StmtKind::Assign { name: name_tok.text.clone(), value },
            },
        )
    }

    fn if_stmt(&mut self) -> (res: Result<Stmt, CompileError>)
        requires
            old(self).wf(),
            kind_at(old(self).toks(), old(self).pos as int) == Some(TokenKind::If),
        ensures
            final(self).follows(old(self)),
            stmt_outcome(res, final(self).pos, final(self).next_id) == if_at(
                old(self).toks(),
                old(self).pos as int,
                old(self).next_id as int,
            ),
            res is Ok ==> old(self).pos < final(self).pos,
        decreases old(self).tokens.len() - old(self).pos, 1nat,
    {
        let kw = self.advance();  // `if`
        self.expect(TokenKind::LParen, "'('")?;
        let cond = self.expr()?;
        self.expect(TokenKind::RParen, "')'")?;
        let (then_body, then_end) = self.block()?;
        let mut end_span = then_end;
        let else_body = if self.check(TokenKind::Else) {
            let (body, espan) = self.block()?;
            end_span = espan;
            Some(body)
        } else {
            None
        };
        let id = self.id();
        Ok(
            Stmt {
                id,
                span: kw.span.merge(end_span),
                kind: StmtKind::If { cond, then_body, else_body },
            },
        )
    }

    fn while_stmt(&mut self) -> (res: Result<Stmt, CompileError>)
        requires
            old(self).wf(),
            kind_at(old(self).toks(), old(self).pos as int) == Some(TokenKind::While),
        ensures
            final(self).follows(old(self)),
            stmt_outcome(res, final(self).pos, final(self).next_id) == while_at(
                old(self).toks(),
                old(self).pos as int,
                old(self).next_id as int,
            ),
            res is Ok ==> old(self).pos < final(self).pos,
        decreases old(self).tokens.len() - old(self).pos, 1nat,
    {
        let kw = self.advance();  // `while`
        self.expect(TokenKind::LParen, "'('")?;
        let cond = self.expr()?;
        self.expect(TokenKind::RParen, "')'")?;
        let (body, end_span) = self.block()?;
        let id = self.id();
        Ok(Stmt { id, span: kw.span.merge(end_span), kind: StmtKind::While { cond, body } })
    }

    fn print_stmt(&mut self) -> (res: Result<Stmt, CompileError>)
        requires
            old(self).wf(),
            kind_at(old(self).toks(), old(self).pos as int) == Some(TokenKind::Print),
        ensures
            final(self).follows(old(self)),
            stmt_outcome(res, final(self).pos, final(self).next_id) == print_at(
                old(self).toks(),
                old(self).pos as int,
                old(self).next_id as int,
            ),
            res is Ok ==> old(self).pos < final(self).pos,
    {
        let kw = self.advance();  // `print`
        self.expect(TokenKind::LParen, "'('")?;
        let value = self.expr()?;
        self.expect(TokenKind::RParen, "')'")?;
        let semi = self.expect(TokenKind::Semi, "';'")?;
        let id = self.id();
        Ok(Stmt { id, span: kw.span.merge(semi.span), kind: StmtKind::Print { value } })
    }

    spec fn block_here(&self) -> BlockParse {
        block_at(self.toks(), self.pos as int, self.next_id as int)
    }

    spec fn block_items_here(&self) -> BlockParse {
        block_items_from(self.toks(), self.pos as int, self.next_id as int)
    }

    /// The statements of a block plus the span of its closing brace.
    fn block(&mut self) -> (res: Result<(Vec<Stmt>, Span), CompileError>)
        requires
            old(self).wf(),
        ensures
            final(self).follows(old(self)),
            block_outcome(res, final(self).pos, final(self).next_id) == old(self).block_here(),
            res is Ok ==> old(self).pos < final(self).pos,
        decreases old(self).tokens.len() - old(self).pos, 3nat,
    {
        self.expect(TokenKind::LBrace, "'{'")?;
        let ghost start = *self;
        let mut stmts: Vec<Stmt> = Vec::new();
        assert(prepend_block(stmts_view(stmts@), self.block_items_here()) =~= self.block_items_here()) by {
            if let Ok((ss, c, p, i)) = self.block_items_here() {
                assert(Seq::<StmtV>::empty() + ss =~= ss);
            }
        }
        loop
            invariant
                start.follows(old(self)),
                old(self).pos < start.pos,
                old(self).block_here() == start.block_items_here(),
                self.follows(&start),
                start.block_items_here() == prepend_block(stmts_view(stmts@), self.block_items_here()),
            decreases self.tokens.len() - self.pos,
        {
            if self.peek_kind() == Some(TokenKind::RBrace) {
                let close = self.advance();
                assert(stmts_view(stmts@) + Seq::<StmtV>::empty() =~= stmts_view(stmts@));
                return Ok((stmts, close.span));
            }
            if self.at_end() {
                return Err(
                    CompileError::new(
                        String::from_str("unclosed block: expected '}'"),
                        self.eof_span(),
                    ),
                );
            }
            let s = self.stmt()?;
            proof {
                if let Ok((ss, c, p, i)) = self.block_items_here() {
                    assert(stmts_view(stmts@) + (seq![stmt_view(s)] + ss) =~= stmts_view(
                        stmts@,
                    ).push(stmt_view(s)) + ss);
                }
            }
            let ghost prev = stmts@;
            stmts.push(s);
            assert(stmts@.drop_last() =~= prev);
        }
    }
}

/// Tokens to AST, every node spanned and id-tagged.
pub fn parse(tokens: &[Token]) -> (res: Result<Vec<Stmt>, CompileError>)
    requires
        tokens.len() < u32::MAX,
    ensures
        program_outcome(res) == parsed(token_views(tokens@)),
{
    let mut p = Parser { tokens, pos: 0, next_id: 0 };
    let mut stmts: Vec<Stmt> = Vec::new();
    let ghost t = token_views(tokens@);
    assert(prepend_program(stmts_view(stmts@), program_from(t, 0, 0)) =~= program_from(t, 0, 0))
        by {
        if let Ok(ss) = program_from(t, 0, 0) {
            assert(Seq::<StmtV>::empty() + ss =~= ss);
        }
    }
    while !p.at_end()
        invariant
            p.wf(),
            p.tokens == tokens,
            t == p.toks(),
            parsed(t) == prepend_program(
                stmts_view(stmts@),
                program_from(t, p.pos as int, p.next_id as int),
            ),
        decreases tokens.len() - p.pos,
    {
        let s = p.stmt()?;
        proof {
            if let Ok(ss) = program_from(t, p.pos as int, p.next_id as int) {
                assert(stmts_view(stmts@) + (seq![stmt_view(s)] + ss) =~= stmts_view(stmts@).push(
                    stmt_view(s),
                ) + ss);
            }
        }
        let ghost prev = stmts@;
        stmts.push(s);
        assert(stmts@.drop_last() =~= prev);
    }
    assert(stmts_view(stmts@) + Seq::<StmtV>::empty() =~= stmts_view(stmts@));
    Ok(stmts)
}

// ---- laws: node ids and node count --------------------------------------------

/// Node ids handed out from `id` while parsing from `p` stay below 2^32.
pub open spec fn id_room(t: Seq<TokenView>, p: int, id: int) -> bool {
    &&& 0 <= p
    &&& 0 <= id
    &&& id + t.len() <= p + 0x1_0000_0000
}

/// A successful parse from `(p, id)` to `(p1, id1)` consumed tokens, handed
/// out ids, and at least as many tokens as ids.
pub open spec fn consumed(t: Seq<TokenView>, p: int, id: int, p1: int, id1: int) -> bool {
    &&& p < p1 <= t.len()
    &&& id < id1
    &&& id1 - id <= p1 - p
}

/// Every token has a non-empty span within the first `n` bytes.
pub open spec fn tokens_in(t: Seq<TokenView>, n: int) -> bool {
    forall|k: int| 0 <= k < t.len() ==> span_in(#[trigger] t[k].span, n)
}

proof fn lemma_range_join(a: int, b: int, c: int)
    requires
        a <= b <= c,
    ensures
        id_range(a, b) + id_range(b, c) =~= id_range(a, c),
{
}

proof fn lemma_range_push(a: int, b: int)
    requires
        a <= b,
    ensures
        id_range(a, b).push(b) =~= id_range(a, b + 1),
{
}

proof fn lemma_binary_ids(op: BinOp, lhs: ExprV, rhs: ExprV, id: int, id2: int)
    requires
        0 <= id <= id2 < 0x1_0000_0000,
        expr_ids(rhs) == id_range(id, id2),
    ensures
        expr_ids(binary_node(op, lhs, rhs, id2)) =~= expr_ids(lhs) + id_range(id, id2 + 1),
{
    lemma_range_push(id, id2);
}

proof fn lemma_expr_at_nodes(t: Seq<TokenView>, n: int, p: int, id: int)
    requires
        id_room(t, p, id),
    ensures
        expr_at(t, p, id) matches Ok((e, p1, id1)) ==> consumed(t, p, id, p1, id1) && expr_ids(e)
            == id_range(id, id1) && (tokens_in(t, n) ==> expr_spans_in(e, n)),
    decreases t.len() - p, 7nat,
{
    lemma_additive_at_nodes(t, n, p, id);
    if let Ok((lhs, p1, id1)) = additive_at(t, p, id) {
        if p < p1 <= t.len() {
            lemma_comparisons_from_nodes(t, n, lhs, p1, id1);
            if let Ok((e, p2, id2)) = comparisons_from(t, lhs, p1, id1) {
                lemma_range_join(id, id1, id2);
            }
        }
    }
}

proof fn lemma_comparisons_from_nodes(t: Seq<TokenView>, n: int, lhs: ExprV, p: int, id: int)
    requires
        id_room(t, p, id),
        p <= t.len(),
    ensures
        comparisons_from(t, lhs, p, id) matches Ok((e, p1, id1)) ==> p <= p1 <= t.len() && id <= id1
            && id1 - id <= p1 - p && expr_ids(e) == expr_ids(lhs) + id_range(id, id1) && (tokens_in(t, n)
            && expr_spans_in(lhs, n) ==> expr_spans_in(e, n)),
    decreases t.len() - p, 6nat,
{
    if let Some(op) = comparison_at(t, p) {
        lemma_additive_at_nodes(t, n, p + 1, id);
        if let Ok((rhs, p2, id2)) = additive_at(t, p + 1, id) {
            lemma_binary_ids(op, lhs, rhs, id, id2);
            lemma_comparisons_from_nodes(t, n, binary_node(op, lhs, rhs, id2), p2, id2 + 1);
            if let Ok((e, p3, id3)) = comparisons_from(t, binary_node(op, lhs, rhs, id2), p2, id2 + 1) {
                lemma_range_join(id, id2 + 1, id3);
            }
        }
    } else {
        assert(expr_ids(lhs) + id_range(id, id) =~= expr_ids(lhs));
    }
}

proof fn lemma_additive_at_nodes(t: Seq<TokenView>, n: int, p: int, id: int)
    requires
        id_room(t, p, id),
    ensures
        additive_at(t, p, id) matches Ok((e, p1, id1)) ==> consumed(t, p, id, p1, id1) && expr_ids(e)
            == id_range(id, id1) && (tokens_in(t, n) ==> expr_spans_in(e, n)),
    decreases t.len() - p, 5nat,
{
    lemma_multiplicative_at_nodes(t, n, p, id);
    if let Ok((lhs, p1, id1)) = multiplicative_at(t, p, id) {
        if p < p1 <= t.len() {
            lemma_additions_from_nodes(t, n, lhs, p1, id1);
            if let Ok((e, p2, id2)) = additions_from(t, lhs, p1, id1) {
                lemma_range_join(id, id1, id2);
            }
        }
    }
}

proof fn lemma_additions_from_nodes(t: Seq<TokenView>, n: int, lhs: ExprV, p: int, id: int)
    requires
        id_room(t, p, id),
        p <= t.len(),
    ensures
        additions_from(t, lhs, p, id) matches Ok((e, p1, id1)) ==> p <= p1 <= t.len() && id <= id1
            && id1 - id <= p1 - p && expr_ids(e) == expr_ids(lhs) + id_range(id, id1) && (tokens_in(t, n)
            && expr_spans_in(lhs, n) ==> expr_spans_in(e, n)),
    decreases t.len() - p, 4nat,
{
    if let Some(op) = additive_op_at(t, p) {
        lemma_multiplicative_at_nodes(t, n, p + 1, id);
        if let Ok((rhs, p2, id2)) = multiplicative_at(t, p + 1, id) {
            lemma_binary_ids(op, lhs, rhs, id, id2);
            lemma_additions_from_nodes(t, n, binary_node(op, lhs, rhs, id2), p2, id2 + 1);
            if let Ok((e, p3, id3)) = additions_from(t, binary_node(op, lhs, rhs, id2), p2, id2 + 1) {
                lemma_range_join(id, id2 + 1, id3);
            }
        }
    } else {
        assert(expr_ids(lhs) + id_range(id, id) =~= expr_ids(lhs));
    }
}

proof fn lemma_multiplicative_at_nodes(t: Seq<TokenView>, n: int, p: int, id: int)
    requires
        id_room(t, p, id),
    ensures
        multiplicative_at(t, p, id) matches Ok((e, p1, id1)) ==> consumed(t, p, id, p1, id1)
            && expr_ids(e) == id_range(id, id1) && (tokens_in(t, n) ==> expr_spans_in(e, n)),
    decreases t.len() - p, 3nat,
{
    lemma_unary_at_nodes(t, n, p, id);
    if let Ok((lhs, p1, id1)) = unary_at(t, p, id) {
        if p < p1 <= t.len() {
            lemma_multiplications_from_nodes(t, n, lhs, p1, id1);
            if let Ok((e, p2, id2)) = multiplications_from(t, lhs, p1, id1) {
                lemma_range_join(id, id1, id2);
            }
        }
    }
}

proof fn lemma_multiplications_from_nodes(t: Seq<TokenView>, n: int, lhs: ExprV, p: int, id: int)
    requires
        id_room(t, p, id),
        p <= t.len(),
    ensures
        multiplications_from(t, lhs, p, id) matches Ok((e, p1, id1)) ==> p <= p1 <= t.len() && id
            <= id1 && id1 - id <= p1 - p && expr_ids(e) == expr_ids(lhs) + id_range(id, id1) && (tokens_in(t, n)
            && expr_spans_in(lhs, n) ==> expr_spans_in(e, n)),
    decreases t.len() - p, 2nat,
{
    if let Some(op) = multiplicative_op_at(t, p) {
        lemma_unary_at_nodes(t, n, p + 1, id);
        if let Ok((rhs, p2, id2)) = unary_at(t, p + 1, id) {
            lemma_binary_ids(op, lhs, rhs, id, id2);
            lemma_multiplications_from_nodes(t, n, binary_node(op, lhs, rhs, id2), p2, id2 + 1);
            if let Ok((e, p3, id3)) = multiplications_from(
                t,
                binary_node(op, lhs, rhs, id2),
                p2,
                id2 + 1,
            ) {
                lemma_range_join(id, id2 + 1, id3);
            }
        }
    } else {
        assert(expr_ids(lhs) + id_range(id, id) =~= expr_ids(lhs));
    }
}

proof fn lemma_unary_at_nodes(t: Seq<TokenView>, n: int, p: int, id: int)
    requires
        id_room(t, p, id),
    ensures
        unary_at(t, p, id) matches Ok((e, p1, id1)) ==> consumed(t, p, id, p1, id1) && expr_ids(e)
            == id_range(id, id1) && (tokens_in(t, n) ==> expr_spans_in(e, n)),
    decreases t.len() - p, 1nat,
{
    if p >= 0 && kind_at(t, p) == Some(TokenKind::Minus) {
        lemma_unary_at_nodes(t, n, p + 1, id);
        if let Ok((operand, p1, id1)) = unary_at(t, p + 1, id) {
            lemma_range_push(id, id1);
        }
    } else {
        lemma_primary_at_nodes(t, n, p, id);
    }
}

proof fn lemma_primary_at_nodes(t: Seq<TokenView>, n: int, p: int, id: int)
    requires
        id_room(t, p, id),
    ensures
        primary_at(t, p, id) matches Ok((e, p1, id1)) ==> consumed(t, p, id, p1, id1) && expr_ids(e)
            == id_range(id, id1) && (tokens_in(t, n) ==> expr_spans_in(e, n)),
    decreases t.len() - p, 0nat,
{
    match kind_at(t, p) {
        Some(TokenKind::Int) => {
            assert(id_range(id, id + 1) =~= seq![id]);
        },
        Some(TokenKind::Ident) => {
            assert(id_range(id, id + 1) =~= seq![id]);
        },
        Some(TokenKind::LParen) => {
            lemma_expr_at_nodes(t, n, p + 1, id);
        },
        _ => {},
    }
}

proof fn lemma_let_at_nodes(t: Seq<TokenView>, n: int, p: int, id: int)
    requires
        id_room(t, p, id),
    ensures
        let_at(t, p, id) matches Ok((s, p1, id1)) ==> consumed(t, p, id, p1, id1) && stmt_ids(s)
            == id_range(id, id1) && (tokens_in(t, n) ==> stmt_spans_in(s, n)),
{
    lemma_expr_at_nodes(t, n, p + 3, id);
    if let Ok((init, p1, id1)) = expr_at(t, p + 3, id) {
        lemma_range_push(id, id1);
    }
}

proof fn lemma_assign_at_nodes(t: Seq<TokenView>, n: int, p: int, id: int)
    requires
        id_room(t, p, id),
    ensures
        assign_at(t, p, id) matches Ok((s, p1, id1)) ==> consumed(t, p, id, p1, id1) && stmt_ids(s)
            == id_range(id, id1) && (tokens_in(t, n) ==> stmt_spans_in(s, n)),
{
    lemma_expr_at_nodes(t, n, p + 2, id);
    if let Ok((value, p1, id1)) = expr_at(t, p + 2, id) {
        lemma_range_push(id, id1);
    }
}

proof fn lemma_print_at_nodes(t: Seq<TokenView>, n: int, p: int, id: int)
    requires
        id_room(t, p, id),
    ensures
        print_at(t, p, id) matches Ok((s, p1, id1)) ==> consumed(t, p, id, p1, id1) && stmt_ids(s)
            == id_range(id, id1) && (tokens_in(t, n) ==> stmt_spans_in(s, n)),
{
    lemma_expr_at_nodes(t, n, p + 2, id);
    if let Ok((value, p1, id1)) = expr_at(t, p + 2, id) {
        lemma_range_push(id, id1);
    }
}

proof fn lemma_condition_at_nodes(t: Seq<TokenView>, n: int, p: int, id: int)
    requires
        id_room(t, p, id),
    ensures
        condition_at(t, p, id) matches Ok((cond, q, id1)) ==> p < q <= t.len() && id < id1 && id1
            - id <= q - p - 3 && expr_ids(cond) == id_range(id, id1) && (tokens_in(t, n) ==> expr_spans_in(cond, n)),
{
    lemma_expr_at_nodes(t, n, p + 2, id);
}

proof fn lemma_stmt_at_nodes(t: Seq<TokenView>, n: int, p: int, id: int)
    requires
        id_room(t, p, id),
    ensures
        stmt_at(t, p, id) matches Ok((s, p1, id1)) ==> consumed(t, p, id, p1, id1) && stmt_ids(s)
            == id_range(id, id1) && (tokens_in(t, n) ==> stmt_spans_in(s, n)),
    decreases t.len() - p, 2nat,
{
    match kind_at(t, p) {
        Some(TokenKind::Let) => lemma_let_at_nodes(t, n, p, id),
        Some(TokenKind::If) => lemma_if_at_nodes(t, n, p, id),
        Some(TokenKind::While) => lemma_while_at_nodes(t, n, p, id),
        Some(TokenKind::Print) => lemma_print_at_nodes(t, n, p, id),
        Some(TokenKind::Ident) => lemma_assign_at_nodes(t, n, p, id),
        _ => {},
    }
}

proof fn lemma_if_at_nodes(t: Seq<TokenView>, n: int, p: int, id: int)
    requires
        id_room(t, p, id),
    ensures
        if_at(t, p, id) matches Ok((s, p1, id1)) ==> consumed(t, p, id, p1, id1) && stmt_ids(s)
            == id_range(id, id1) && (tokens_in(t, n) ==> stmt_spans_in(s, n)),
    decreases t.len() - p, 1nat,
{
    lemma_condition_at_nodes(t, n, p, id);
    if let Ok((cond, q, id1)) = condition_at(t, p, id) {
        if p < q <= t.len() {
            lemma_block_at_nodes(t, n, q, id1);
            if let Ok((then_body, then_end, p2, id2)) = block_at(t, q, id1) {
                lemma_range_join(id, id1, id2);
                if kind_at(t, p2) == Some(TokenKind::Else) {
                    if p < p2 + 1 <= t.len() {
                        lemma_block_at_nodes(t, n, p2 + 1, id2);
                        if let Ok((else_body, else_end, p3, id3)) = block_at(t, p2 + 1, id2) {
                            lemma_range_join(id, id2, id3);
                            lemma_range_push(id, id3);
                        }
                    }
                } else {
                    assert(id_range(id, id2) + Seq::<int>::empty() =~= id_range(id, id2));
                    lemma_range_push(id, id2);
                }
            }
        }
    }
}

proof fn lemma_while_at_nodes(t: Seq<TokenView>, n: int, p: int, id: int)
    requires
        id_room(t, p, id),
    ensures
        while_at(t, p, id) matches Ok((s, p1, id1)) ==> consumed(t, p, id, p1, id1) && stmt_ids(s)
            == id_range(id, id1) && (tokens_in(t, n) ==> stmt_spans_in(s, n)),
    decreases t.len() - p, 1nat,
{
    lemma_condition_at_nodes(t, n, p, id);
    if let Ok((cond, q, id1)) = condition_at(t, p, id) {
        if p < q <= t.len() {
            lemma_block_at_nodes(t, n, q, id1);
            if let Ok((body, body_end, p2, id2)) = block_at(t, q, id1) {
                lemma_range_join(id, id1, id2);
                lemma_range_push(id, id2);
            }
        }
    }
}

proof fn lemma_block_at_nodes(t: Seq<TokenView>, n: int, p: int, id: int)
    requires
        id_room(t, p, id),
    ensures
        block_at(t, p, id) matches Ok((ss, close, p1, id1)) ==> p < p1 <= t.len() && id <= id1 && id1
            - id <= p1 - p - 2 && stmts_ids(ss) == id_range(id, id1) && (tokens_in(t, n) ==> stmts_spans_in(ss, n) && span_in(close, n)),
    decreases t.len() - p, 4nat,
{
    if kind_at(t, p) == Some(TokenKind::LBrace) {
        lemma_block_items_from_nodes(t, n, p + 1, id);
    }
}

proof fn lemma_stmts_cons(s: StmtV, ss: Seq<StmtV>, n: int)
    ensures
        stmts_ids(seq![s] + ss) == stmt_ids(s) + stmts_ids(ss),
        stmts_spans_in(seq![s] + ss, n) == (stmt_spans_in(s, n) && stmts_spans_in(ss, n)),
{
    assert((seq![s] + ss)[0] == s);
    assert((seq![s] + ss).drop_first() =~= ss);
}

proof fn lemma_block_items_from_nodes(t: Seq<TokenView>, n: int, p: int, id: int)
    requires
        id_room(t, p, id),
    ensures
        block_items_from(t, p, id) matches Ok((ss, close, p1, id1)) ==> p < p1 <= t.len() && id <= id1
            && id1 - id <= p1 - p - 1 && stmts_ids(ss) == id_range(id, id1) && (tokens_in(t, n) ==> stmts_spans_in(ss, n) && span_in(close, n)),
    decreases t.len() - p, 3nat,
{
    if kind_at(t, p) == Some(TokenKind::RBrace) {
        assert(id_range(id, id) =~= Seq::<int>::empty());
    } else if 0 <= p < t.len() {
        lemma_stmt_at_nodes(t, n, p, id);
        if let Ok((s, p1, id1)) = stmt_at(t, p, id) {
            lemma_block_items_from_nodes(t, n, p1, id1);
            if let Ok((ss, close, p2, id2)) = block_items_from(t, p1, id1) {
                lemma_stmts_cons(s, ss, n);
                lemma_range_join(id, id1, id2);
            }
        }
    }
}

proof fn lemma_program_from_nodes(t: Seq<TokenView>, n: int, p: int, id: int)
    requires
        id_room(t, p, id),
        p <= t.len(),
    ensures
        program_from(t, p, id) matches Ok(ss) ==> stmts_ids(ss) == id_range(id, id + stmts_ids(ss).len())
            && stmts_ids(ss).len() <= t.len() - p && (tokens_in(t, n) ==> stmts_spans_in(ss, n)),
    decreases t.len() - p,
{
    if p < t.len() {
        lemma_stmt_at_nodes(t, n, p, id);
        if let Ok((s, p1, id1)) = stmt_at(t, p, id) {
            lemma_program_from_nodes(t, n, p1, id1);
            if let Ok(ss) = program_from(t, p1, id1) {
                lemma_stmts_cons(s, ss, n);
                lemma_range_join(id, id1, id1 + stmts_ids(ss).len());
            }
        }
    } else {
        assert(id_range(id, id) =~= Seq::<int>::empty());
    }
}

/// Every node of a parsed program has its own id: the ids are 0, 1, 2, ...
/// in the order the nodes are completed (children before their parent, left
/// to right), and there are no more nodes than tokens.
pub proof fn lemma_parsed_ids(t: Seq<TokenView>)
    requires
        t.len() < u32::MAX,
    ensures
        parsed(t) matches Ok(prog) ==> {
            &&& stmts_ids(prog) == id_range(0, stmts_size(prog) as int)
            &&& stmts_ids(prog).no_duplicates()
            &&& stmts_size(prog) <= t.len()
        },
{
    lemma_program_from_nodes(t, 0, 0, 0);
    if let Ok(prog) = parsed(t) {
        lemma_stmts_ids_len(prog);
    }
}

/// Every node of a parsed program spans a non-empty range of the source:
/// when every token lies within the first `n` bytes, so does every node.
pub proof fn lemma_parsed_spans(t: Seq<TokenView>, n: int)
    requires
        t.len() < u32::MAX,
        tokens_in(t, n),
    ensures
        parsed(t) matches Ok(prog) ==> stmts_spans_in(prog, n),
{
    lemma_program_from_nodes(t, n, 0, 0);
}

} // verus!
