//! AST node definitions.
//!
//! Every node carries a unique `id` (used by provenance links from
//! instructions to AST nodes) and a `span` (AST node to source characters).
use vstd::prelude::*;
use crate::span::Span;

verus! {

pub type NodeId = u32;

#[derive(Debug)]
pub struct Stmt {
    pub id: NodeId,
    pub span: Span,
    pub kind: StmtKind,
}

#[derive(Debug)]
pub enum StmtKind {
    Let { name: String, init: Expr },
    Assign { name: String, value: Expr },
    If { cond: Expr, then_body: Vec<Stmt>, else_body: Option<Vec<Stmt>> },
    While { cond: Expr, body: Vec<Stmt> },
    Print { value: Expr },
}

#[derive(Debug)]
pub struct Expr {
    pub id: NodeId,
    pub span: Span,
    pub kind: ExprKind,
}

#[derive(Debug)]
pub enum ExprKind {
    Int { value: i32 },
    Var { name: String },
    Unary { op: UnOp, operand: Box<Expr> },
    Binary { op: BinOp, lhs: Box<Expr>, rhs: Box<Expr> },
}

#[derive(Clone, Copy, Debug, PartialEq, Eq, Structural)]
pub enum UnOp {
    Neg,
}

#[derive(Clone, Copy, Debug, PartialEq, Eq, Structural)]
pub enum BinOp {
    Add,
    Sub,
    Mul,
    Div,
    Rem,
    Eq,
    Ne,
    Lt,
    Le,
    Gt,
    Ge,
}

// ---- the mathematical AST ---------------------------------------------------

pub struct ExprV {
    pub id: NodeId,
    pub span: Span,
    pub kind: ExprKindV,
}

pub enum ExprKindV {
    Int { value: i32 },
    Var { name: Seq<char> },
    Unary { op: UnOp, operand: Box<ExprV> },
    Binary { op: BinOp, lhs: Box<ExprV>, rhs: Box<ExprV> },
}

pub struct StmtV {
    pub id: NodeId,
    pub span: Span,
    pub kind: StmtKindV,
}

pub enum StmtKindV {
    Let { name: Seq<char>, init: ExprV },
    Assign { name: Seq<char>, value: ExprV },
    If { cond: ExprV, then_body: Seq<StmtV>, else_body: Option<Seq<StmtV>> },
    While { cond: ExprV, body: Seq<StmtV> },
    Print { value: ExprV },
}

/// The mathematical content of an expression.
pub open spec fn expr_view(e: Expr) -> ExprV
    decreases e,
{
    ExprV {
        id: e.id,
        span: e.span,
        kind: match e.kind {
            ExprKind::Int { value } => ExprKindV::Int { value },
            ExprKind::Var { name } => ExprKindV::Var { name: name@ },
            ExprKind::Unary { op, operand } => ExprKindV::Unary {
                op,
                operand: Box::new(expr_view(*operand)),
            },
            ExprKind::Binary { op, lhs, rhs } => ExprKindV::Binary {
                op,
                lhs: Box::new(expr_view(*lhs)),
                rhs: Box::new(expr_view(*rhs)),
            },
        },
    }
}

/// The mathematical content of a statement.
pub open spec fn stmt_view(s: Stmt) -> StmtV
    decreases s, 0nat,
{
    StmtV {
        id: s.id,
        span: s.span,
        kind: match s.kind {
            StmtKind::Let { name, init } => StmtKindV::Let { name: name@, init: expr_view(init) },
            StmtKind::Assign { name, value } => StmtKindV::Assign {
                name: name@,
                value: expr_view(value),
            },
            StmtKind::If { cond, then_body, else_body } => StmtKindV::If {
                cond: expr_view(cond),
                then_body: stmts_view(then_body@),
                else_body: match else_body {
                    Some(b) => Some(stmts_view(b@)),
                    None => None,
                },
            },
            StmtKind::While { cond, body } => StmtKindV::While {
                cond: expr_view(cond),
                body: stmts_view(body@),
            },
            StmtKind::Print { value } => StmtKindV::Print { value: expr_view(value) },
        },
    }
}

/// The mathematical content of a statement list.
pub open spec fn stmts_view(ss: Seq<Stmt>) -> Seq<StmtV>
    decreases ss, 1nat,
{
    if ss.len() == 0 {
        Seq::empty()
    } else {
        stmts_view(ss.drop_last()).push(stmt_view(ss.last()))
    }
}

/// A statement list's view has one entry per statement, the view of that
/// statement.
pub proof fn lemma_stmts_view(ss: Seq<Stmt>)
    ensures
        stmts_view(ss).len() == ss.len(),
        forall|i: int| 0 <= i < ss.len() ==> #[trigger] stmts_view(ss)[i] == stmt_view(ss[i]),
    decreases ss.len(),
{
    if ss.len() > 0 {
        lemma_stmts_view(ss.drop_last());
    }
}

// ---- sizes and node ids ------------------------------------------------------

/// Number of AST nodes in an expression.
pub open spec fn expr_size(e: ExprV) -> nat
    decreases e,
{
    match e.kind {
        ExprKindV::Unary { operand, .. } => 1 + expr_size(*operand),
        ExprKindV::Binary { lhs, rhs, .. } => 1 + expr_size(*lhs) + expr_size(*rhs),
        _ => 1,
    }
}

/// Number of AST nodes in a statement.
pub open spec fn stmt_size(s: StmtV) -> nat
    decreases s, 0nat,
{
    match s.kind {
        StmtKindV::Let { init, .. } => 1 + expr_size(init),
        StmtKindV::Assign { value, .. } => 1 + expr_size(value),
        StmtKindV::Print { value } => 1 + expr_size(value),
        StmtKindV::If { cond, then_body, else_body } => 1 + expr_size(cond) + stmts_size(then_body)
            + match else_body {
            Some(b) => stmts_size(b),
            None => 0,
        },
        StmtKindV::While { cond, body } => 1 + expr_size(cond) + stmts_size(body),
    }
}

/// Number of AST nodes in a statement list.
pub open spec fn stmts_size(ss: Seq<StmtV>) -> nat
    decreases ss, 1nat,
{
    if ss.len() == 0 {
        0
    } else {
        stmt_size(ss[0]) + stmts_size(ss.drop_first())
    }
}

/// The node ids of an expression in the order the nodes are completed:
/// children before their parent, left to right.
pub open spec fn expr_ids(e: ExprV) -> Seq<int>
    decreases e,
{
    match e.kind {
        ExprKindV::Unary { operand, .. } => expr_ids(*operand).push(e.id as int),
        ExprKindV::Binary { lhs, rhs, .. } => expr_ids(*lhs) + expr_ids(*rhs) + seq![e.id as int],
        _ => seq![e.id as int],
    }
}

/// The node ids of a statement, in completion order.
pub open spec fn stmt_ids(s: StmtV) -> Seq<int>
    decreases s, 0nat,
{
    match s.kind {
        StmtKindV::Let { init, .. } => expr_ids(init).push(s.id as int),
        StmtKindV::Assign { value, .. } => expr_ids(value).push(s.id as int),
        StmtKindV::Print { value } => expr_ids(value).push(s.id as int),
        StmtKindV::If { cond, then_body, else_body } => expr_ids(cond) + stmts_ids(then_body)
            + match else_body {
            Some(b) => stmts_ids(b),
            None => Seq::empty(),
        } + seq![s.id as int],
        StmtKindV::While { cond, body } => expr_ids(cond) + stmts_ids(body) + seq![s.id as int],
    }
}

/// The node ids of a statement list, in completion order.
pub open spec fn stmts_ids(ss: Seq<StmtV>) -> Seq<int>
    decreases ss, 1nat,
{
    if ss.len() == 0 {
        Seq::empty()
    } else {
        stmt_ids(ss[0]) + stmts_ids(ss.drop_first())
    }
}

/// The integers `a`, `a + 1`, ..., `b - 1`.
pub open spec fn id_range(a: int, b: int) -> Seq<int> {
    Seq::new((b - a) as nat, |i: int| a + i)
}

/// One id per node.
pub proof fn lemma_expr_ids_len(e: ExprV)
    ensures
        expr_ids(e).len() == expr_size(e),
    decreases e,
{
    match e.kind {
        ExprKindV::Unary { operand, .. } => lemma_expr_ids_len(*operand),
        ExprKindV::Binary { lhs, rhs, .. } => {
            lemma_expr_ids_len(*lhs);
            lemma_expr_ids_len(*rhs);
        },
        _ => {},
    }
}

pub proof fn lemma_stmt_ids_len(s: StmtV)
    ensures
        stmt_ids(s).len() == stmt_size(s),
    decreases s, 0nat,
{
    match s.kind {
        StmtKindV::Let { init, .. } => lemma_expr_ids_len(init),
        StmtKindV::Assign { value, .. } => lemma_expr_ids_len(value),
        StmtKindV::Print { value } => lemma_expr_ids_len(value),
        StmtKindV::If { cond, then_body, else_body } => {
            lemma_expr_ids_len(cond);
            lemma_stmts_ids_len(then_body);
            if let Some(b) = else_body {
                lemma_stmts_ids_len(b);
            }
        },
        StmtKindV::While { cond, body } => {
            lemma_expr_ids_len(cond);
            lemma_stmts_ids_len(body);
        },
    }
}

pub proof fn lemma_stmts_ids_len(ss: Seq<StmtV>)
    ensures
        stmts_ids(ss).len() == stmts_size(ss),
    decreases ss, 1nat,
{
    if ss.len() > 0 {
        lemma_stmt_ids_len(ss[0]);
        lemma_stmts_ids_len(ss.drop_first());
    }
}

// ---- spans ---------------------------------------------------------------------

/// A non-empty span ending at or before `n`.
pub open spec fn span_in(s: Span, n: int) -> bool {
    s.start < s.end <= n
}

/// Every node of the expression has a span within the first `n` bytes.
pub open spec fn expr_spans_in(e: ExprV, n: int) -> bool
    decreases e,
{
    &&& span_in(e.span, n)
    &&& match e.kind {
        ExprKindV::Unary { operand, .. } => expr_spans_in(*operand, n),
        ExprKindV::Binary { lhs, rhs, .. } => expr_spans_in(*lhs, n) && expr_spans_in(*rhs, n),
        _ => true,
    }
}

/// Every node of the statement has a span within the first `n` bytes.
pub open spec fn stmt_spans_in(s: StmtV, n: int) -> bool
    decreases s, 0nat,
{
    &&& span_in(s.span, n)
    &&& match s.kind {
        StmtKindV::Let { init, .. } => expr_spans_in(init, n),
        StmtKindV::Assign { value, .. } => expr_spans_in(value, n),
        StmtKindV::Print { value } => expr_spans_in(value, n),
        StmtKindV::If { cond, then_body, else_body } => expr_spans_in(cond, n) && stmts_spans_in(
            then_body,
            n,
        ) && match else_body {
            Some(b) => stmts_spans_in(b, n),
            None => true,
        },
        StmtKindV::While { cond, body } => expr_spans_in(cond, n) && stmts_spans_in(body, n),
    }
}

/// Every node of the statement list has a span within the first `n` bytes.
pub open spec fn stmts_spans_in(ss: Seq<StmtV>, n: int) -> bool
    decreases ss, 1nat,
{
    if ss.len() == 0 {
        true
    } else {
        stmt_spans_in(ss[0], n) && stmts_spans_in(ss.drop_first(), n)
    }
}

// ---- copies ----------------------------------------------------------------------

impl Clone for Expr {
    /// A deep copy: the same tree of nodes, ids and spans.
    fn clone(&self) -> (res: Self)
        ensures
            expr_view(res) == expr_view(*self),
        decreases self,
    {
        let kind = match &self.kind {
            ExprKind::Int { value } => ExprKind::Int { value: *value },
            ExprKind::Var { name } => ExprKind::Var { name: name.clone() },
            ExprKind::Unary { op, operand } => ExprKind::Unary {
                op: *op,
                operand: Box::new((&**operand).clone()),
            },
            ExprKind::Binary { op, lhs, rhs } => ExprKind::Binary {
                op: *op,
                lhs: Box::new((&**lhs).clone()),
                rhs: Box::new((&**rhs).clone()),
            },
        };
        Expr { id: self.id, span: self.span, kind }
    }
}

/// A deep copy of a statement list.
fn clone_stmts(ss: &Vec<Stmt>) -> (res: Vec<Stmt>)
    ensures
        stmts_view(res@) == stmts_view(ss@),
    decreases ss, 0nat,
{
    let mut res: Vec<Stmt> = Vec::new();
    let mut i: usize = 0;
    while i < ss.len()
        invariant
            i <= ss@.len(),
            stmts_view(res@) == stmts_view(ss@.take(i as int)),
        decreases ss@.len() - i,
    {
        proof {
            vstd::std_specs::vec::axiom_vec_index_decreases(*ss, i as int);
        }
        let s = ss[i].clone();
        let ghost prev = res@;
        res.push(s);
        proof {
            assert(ss@.take(i + 1).drop_last() =~= ss@.take(i as int));
            assert(ss@.take(i + 1).last() == ss@[i as int]);
            assert(res@.drop_last() =~= prev);
        }
        i = i + 1;
    }
    assert(ss@.take(i as int) =~= ss@);
    res
}

impl Clone for Stmt {
    /// A deep copy: the same tree of nodes, ids and spans.
    fn clone(&self) -> (res: Self)
        ensures
            stmt_view(res) == stmt_view(*self),
        decreases self, 1nat,
    {
        let kind = match &self.kind {
            StmtKind::Let { name, init } => StmtKind::Let { name: name.clone(), init: init.clone() },
            StmtKind::Assign { name, value } => StmtKind::Assign { name: name.clone(), value: value.clone() },
            StmtKind::If { cond, then_body, else_body } => StmtKind::If {
                cond: cond.clone(),
                then_body: clone_stmts(then_body),
                else_body: match else_body {
                    Some(b) => Some(clone_stmts(b)),
                    None => None,
                },
            },
            StmtKind::While { cond, body } => StmtKind::While { cond: cond.clone(), body: clone_stmts(body) },
            StmtKind::Print { value } => StmtKind::Print { value: value.clone() },
        };
        Stmt { id: self.id, span: self.span, kind }
    }
}

} // verus!
