use engine::ast::{BinOp, Expr, ExprKind, Stmt, StmtKind};
use engine::lexer::lex;
use engine::parser::parse;

fn parse_src(src: &str) -> Vec<Stmt> {
    parse(&lex(src).unwrap()).unwrap()
}

fn walk_expr(e: &Expr, ids: &mut Vec<u32>) {
    ids.push(e.id);
    match &e.kind {
        ExprKind::Binary { lhs, rhs, .. } => {
            walk_expr(lhs, ids);
            walk_expr(rhs, ids);
        }
        ExprKind::Unary { operand, .. } => walk_expr(operand, ids),
        _ => {}
    }
}

#[test]
fn parses_let_with_precedence() {
    let stmts = parse_src("let x = 1 + 2 * 3;");
    assert_eq!(stmts.len(), 1);
    let StmtKind::Let { name, init } = &stmts[0].kind else {
        panic!("expected let");
    };
    assert_eq!(name, "x");
    // `+` at the top, `*` underneath
    let ExprKind::Binary { op: BinOp::Add, rhs, .. } = &init.kind else {
        panic!("expected add at top: {:?}", init.kind);
    };
    assert!(matches!(rhs.kind, ExprKind::Binary { op: BinOp::Mul, .. }));
}

#[test]
fn parses_while_with_block() {
    let stmts = parse_src("let i = 0; while (i < 5) { i = i + 1; }");
    assert_eq!(stmts.len(), 2);
    let StmtKind::While { cond, body } = &stmts[1].kind else {
        panic!("expected while");
    };
    assert!(matches!(cond.kind, ExprKind::Binary { op: BinOp::Lt, .. }));
    assert_eq!(body.len(), 1);
}

#[test]
fn parses_if_else() {
    let stmts = parse_src("if (1 == 1) { print(1); } else { print(2); }");
    let StmtKind::If { else_body, .. } = &stmts[0].kind else {
        panic!("expected if");
    };
    assert!(else_body.is_some());
}

#[test]
fn spans_cover_statements() {
    let src = "let x = 42;";
    let stmts = parse_src(src);
    let s = stmts[0].span;
    assert_eq!(&src[s.start as usize..s.end as usize], "let x = 42;");
}

#[test]
fn node_ids_are_unique() {
    let stmts = parse_src("let a = 1 + 2; print(a);");
    let mut ids = Vec::new();
    for s in &stmts {
        ids.push(s.id);
        match &s.kind {
            StmtKind::Let { init, .. } => walk_expr(init, &mut ids),
            StmtKind::Print { value } => walk_expr(value, &mut ids),
            _ => {}
        }
    }
    let mut sorted = ids.clone();
    sorted.sort();
    sorted.dedup();
    assert_eq!(sorted.len(), ids.len(), "duplicate node ids");
}

#[test]
fn reports_missing_semi() {
    let err = parse(&lex("let x = 1").unwrap()).unwrap_err();
    assert!(err.message.contains("';'"), "{}", err.message);
}
