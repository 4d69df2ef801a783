use engine::assembler::{decode, encode};
use engine::ast::{Expr, ExprKind, StmtKind};
use engine::codegen::{codegen, hi_lo};
use engine::cpu::{Cpu, MEM_SIZE};
use engine::ir::{reg_name, Instr};
use engine::lexer::{lex, TokenKind};
use engine::parser::parse;
use engine::span::{CompileError, Span};
use engine::vm::{compile, Vm};

fn program_bytes(instrs: &[Instr]) -> Vec<u8> {
    instrs.iter().flat_map(|i| encode(*i).to_le_bytes()).collect()
}

fn output_of(src: &str, steps: u32) -> String {
    let compilation = compile(src).unwrap();
    let mut vm = Vm::new(&compilation);
    let deltas = vm.run(steps);
    deltas.iter().filter_map(|d| d.delta.output.clone()).collect()
}

fn post_order(e: &Expr, ids: &mut Vec<u32>) {
    match &e.kind {
        ExprKind::Binary { lhs, rhs, .. } => {
            post_order(lhs, ids);
            post_order(rhs, ids);
        }
        ExprKind::Unary { operand, .. } => post_order(operand, ids),
        _ => {}
    }
    ids.push(e.id);
}

// ---- spans and errors ------------------------------------------------------

#[test]
fn span_merge_covers_both() {
    assert_eq!(Span::new(4, 9).merge(Span::new(2, 5)), Span::new(2, 9));
    assert_eq!(Span::new(0, 1).merge(Span::new(7, 8)), Span::new(0, 8));
}

#[test]
fn error_text_shows_span() {
    let e = CompileError::new("bad thing".to_string(), Span::new(3, 7));
    assert_eq!(e.to_text(), "bad thing (at 3..7)");
    let e = CompileError::no_span("no place".to_string());
    assert_eq!(e.to_text(), "no place");
    assert!(e.span.is_none());
}

// ---- lexer -------------------------------------------------------------------

#[test]
fn tokens_point_back_at_source() {
    let src = "while (n >= 10) { n = n - 1; } // done";
    let toks = lex(src).unwrap();
    let mut last_end = 0;
    for t in &toks {
        assert!(last_end <= t.span.start && t.span.start < t.span.end);
        assert_eq!(&src[t.span.start as usize..t.span.end as usize], t.text);
        last_end = t.span.end;
    }
    assert!(toks.len() <= src.len());
    assert_eq!(toks[3].kind, TokenKind::GtEq);
}

#[test]
fn keywords_and_identifiers() {
    let toks = lex("let if else while print _x lets").unwrap();
    let kinds: Vec<TokenKind> = toks.iter().map(|t| t.kind).collect();
    assert_eq!(
        kinds,
        vec![
            TokenKind::Let,
            TokenKind::If,
            TokenKind::Else,
            TokenKind::While,
            TokenKind::Print,
            TokenKind::Ident,
            TokenKind::Ident,
        ]
    );
}

#[test]
fn unexpected_character_message() {
    let err = lex("a ! b").unwrap_err();
    assert_eq!(err.message, "unexpected character '!'");
    assert_eq!(err.span, Some(Span::new(2, 3)));
}

// ---- parser ------------------------------------------------------------------

#[test]
fn node_ids_count_up_in_completion_order() {
    let stmts = parse(&lex("let a = 1 + 2; print(-a);").unwrap()).unwrap();
    let mut ids = Vec::new();
    for s in &stmts {
        match &s.kind {
            StmtKind::Let { init, .. } => post_order(init, &mut ids),
            StmtKind::Print { value } => post_order(value, &mut ids),
            _ => {}
        }
        ids.push(s.id);
    }
    assert_eq!(ids, vec![0, 1, 2, 3, 4, 5, 6]);
}

#[test]
fn parser_error_messages() {
    let err = parse(&lex("let = 1;").unwrap()).unwrap_err();
    assert_eq!(err.message, "expected a variable name, found '='");
    assert_eq!(err.span, Some(Span::new(4, 5)));
    let err = parse(&lex("print(1").unwrap()).unwrap_err();
    assert_eq!(err.message, "expected ')', found end of input");
    assert_eq!(err.span, Some(Span::new(7, 7)));
    let err = parse(&lex("while (1) { print(1);").unwrap()).unwrap_err();
    assert_eq!(err.message, "unclosed block: expected '}'");
    let err = parse(&lex("let x = 2147483648;").unwrap()).unwrap_err();
    assert_eq!(err.message, "integer literal does not fit in 32 bits");
    let err = parse(&lex("let x = ;").unwrap()).unwrap_err();
    assert_eq!(err.message, "expected an expression, found ';'");
    let err = parse(&lex("1;").unwrap()).unwrap_err();
    assert_eq!(err.message, "expected a statement, found '1'");
}

#[test]
fn largest_literal_parses() {
    let stmts = parse(&lex("let x = 2147483647;").unwrap()).unwrap();
    let StmtKind::Let { init, .. } = &stmts[0].kind else {
        panic!("expected let");
    };
    assert!(matches!(init.kind, ExprKind::Int { value: 2147483647 }));
}

// ---- codegen -----------------------------------------------------------------

#[test]
fn hi_lo_exact_parts() {
    assert_eq!(hi_lo(0x12345678), (0x12345, 0x678));
    assert_eq!(hi_lo(0x800), (0x1, -0x800));
    assert_eq!(hi_lo(-1), (0, -1));
}

#[test]
fn large_constant_uses_lui_then_addi() {
    let out = codegen(&parse(&lex("let x = 74565;").unwrap()).unwrap()).unwrap();
    // 74565 = 0x12345: %hi 0x12, %lo 0x345
    assert_eq!(out.instrs[2].instr, Instr::Lui { rd: 5, imm: 0x12 });
    assert_eq!(out.instrs[3].instr, Instr::Addi { rd: 5, rs1: 5, imm: 0x345 });
    let out = codegen(&parse(&lex("let x = 4096;").unwrap()).unwrap()).unwrap();
    // a zero %lo part still gets its addi
    assert_eq!(out.instrs[2].instr, Instr::Lui { rd: 5, imm: 1 });
    assert_eq!(out.instrs[3].instr, Instr::Addi { rd: 5, rs1: 5, imm: 0 });
    assert_eq!(out.instrs[4].instr, Instr::Sw { rs1: 3, rs2: 5, imm: 0 });
}

#[test]
fn every_jump_lands_in_the_code() {
    let src = "let n = 3; while (n > 0) { if (n == 2) { print(n); } else { n = n - 0; } n = n - 1; }";
    let out = codegen(&parse(&lex(src).unwrap()).unwrap()).unwrap();
    let len = out.instrs.len() as i32;
    let mut jumps = 0;
    for (k, e) in out.instrs.iter().enumerate() {
        let off = match e.instr {
            Instr::Beq { offset, .. } | Instr::Jal { offset, .. } => offset,
            _ => continue,
        };
        jumps += 1;
        assert_eq!(off % 4, 0);
        let target = k as i32 + off / 4;
        assert!(0 <= target && target < len, "jump at {k} to {target}");
    }
    assert_eq!(jumps, 4);
}

#[test]
fn variables_get_consecutive_slots() {
    let out = codegen(&parse(&lex("let a = 1; let b = 2; if (a < b) { let c = 3; }").unwrap()).unwrap())
        .unwrap();
    let names: Vec<&str> = out.vars.iter().map(|v| v.name.as_str()).collect();
    assert_eq!(names, vec!["a", "b", "c"]);
    for (i, v) in out.vars.iter().enumerate() {
        assert_eq!(v.addr, out.data_base + 4 * i as u32);
    }
    assert_eq!(out.data_base, 4 * out.instrs.len() as u32);
}

#[test]
fn seven_nested_operands_fit() {
    let out = codegen(&parse(&lex("let x = (1+(2+(3+(4+(5+(6+7))))));").unwrap()).unwrap());
    assert!(out.is_ok());
}

#[test]
fn comparison_lowering() {
    let out = codegen(&parse(&lex("let a = 1; let b = 2; print(a != b);").unwrap()).unwrap()).unwrap();
    let instrs: Vec<Instr> = out.instrs.iter().map(|e| e.instr).collect();
    assert!(instrs.contains(&Instr::Sub { rd: 5, rs1: 5, rs2: 6 }));
    assert!(instrs.contains(&Instr::Sltu { rd: 5, rs1: 0, rs2: 5 }));
}

// ---- assembly text -----------------------------------------------------------

#[test]
fn register_names() {
    assert_eq!(reg_name(0), "zero");
    assert_eq!(reg_name(3), "gp");
    assert_eq!(reg_name(10), "a0");
    assert_eq!(reg_name(27), "s11");
    assert_eq!(reg_name(31), "t6");
}

#[test]
fn assembly_text_forms() {
    assert_eq!(Instr::Lui { rd: 3, imm: 1 }.text(0), "lui gp, 0x1");
    assert_eq!(Instr::Lui { rd: 5, imm: 0xfffff }.text(0), "lui t0, 0xfffff");
    assert_eq!(Instr::Addi { rd: 5, rs1: 0, imm: -7 }.text(0), "addi t0, zero, -7");
    assert_eq!(Instr::Sltiu { rd: 5, rs1: 5, imm: 1 }.text(0), "sltiu t0, t0, 1");
    assert_eq!(Instr::Add { rd: 5, rs1: 6, rs2: 7 }.text(0), "add t0, t1, t2");
    assert_eq!(Instr::Lw { rd: 6, rs1: 3, imm: 8 }.text(0), "lw t1, 8(gp)");
    assert_eq!(Instr::Sw { rs1: 3, rs2: 5, imm: 12 }.text(0), "sw t0, 12(gp)");
    assert_eq!(Instr::Beq { rs1: 5, rs2: 0, offset: 8 }.text(16), "beq t0, zero, 0x0018");
    assert_eq!(Instr::Jal { rd: 0, offset: -16 }.text(32), "j 0x0010");
    assert_eq!(Instr::Jal { rd: 1, offset: 0x10000 }.text(4), "jal ra, 0x10004");
    assert_eq!(Instr::Ecall.text(0), "ecall");
}

#[test]
fn branch_target_wraps_around() {
    assert_eq!(Instr::Bne { rs1: 5, rs2: 6, offset: -8 }.text(4), "bne t0, t1, 0xfffffffc");
}

// ---- assembler -----------------------------------------------------------------

#[test]
fn decoded_words_encode_back() {
    for word in [0x00700293u32, 0x007302B3, 0x000011B7, 0x0081A283, 0x0051A423, 0x00028463, 0x0080006F, 0x00000073] {
        let instr = decode(word).unwrap();
        assert_eq!(encode(instr), word);
    }
}

// ---- cpu -----------------------------------------------------------------------

#[test]
fn fresh_cpu_is_zeroed() {
    let cpu = Cpu::new(&[1, 2, 3, 4]);
    assert_eq!(cpu.regs, [0; 32]);
    assert_eq!(cpu.pc, 0);
    assert!(!cpu.halted);
    assert_eq!(cpu.mem.len(), MEM_SIZE);
    assert_eq!(cpu.read_word(0), Some(0x04030201));
    assert_eq!(cpu.read_word(4), Some(0));
    assert_eq!(cpu.read_word((MEM_SIZE - 4) as u32), Some(0));
    assert_eq!(cpu.read_word((MEM_SIZE - 3) as u32), None);
}

#[test]
fn cpu_fault_messages() {
    let mut cpu = Cpu::new(&program_bytes(&[Instr::Jal { rd: 0, offset: 2 }, Instr::Ecall]));
    cpu.step();
    let d = cpu.step();
    assert_eq!(d.error.as_deref(), Some("misaligned PC 0x0002"));
    let mut cpu = Cpu::new(&program_bytes(&[Instr::Lw { rd: 5, rs1: 0, imm: -4 }]));
    let d = cpu.step();
    assert_eq!(d.error.as_deref(), Some("load out of bounds at 0xfffffffc"));
    let mut cpu = Cpu::new(&program_bytes(&[Instr::Sw { rs1: 0, rs2: 0, imm: -2 }]));
    let d = cpu.step();
    assert_eq!(d.error.as_deref(), Some("store out of bounds at 0xfffffffe"));
    let mut cpu = Cpu::new(&program_bytes(&[Instr::Addi { rd: 17, rs1: 0, imm: 5 }, Instr::Ecall]));
    cpu.step();
    let d = cpu.step();
    assert_eq!(d.error.as_deref(), Some("unknown ecall number 5"));
    let mut cpu = Cpu::new(&[0xff, 0xff, 0xff, 0xff]);
    let d = cpu.step();
    assert_eq!(d.error.as_deref(), Some("cannot decode word 0xffffffff at 0x0000"));
    let mut cpu = Cpu::new(&program_bytes(&[Instr::Jal { rd: 0, offset: -8 }]));
    cpu.step();
    let d = cpu.step();
    assert_eq!(d.error.as_deref(), Some("fetch out of bounds at 0xfffffff8"));
    assert!(cpu.halted);
}

#[test]
fn delta_reports_register_and_memory_changes() {
    let mut cpu = Cpu::new(&program_bytes(&[
        Instr::Addi { rd: 5, rs1: 0, imm: -3 },
        Instr::Sw { rs1: 0, rs2: 5, imm: 200 },
        Instr::Jal { rd: 1, offset: 8 },
    ]));
    let d = cpu.step();
    let w = d.reg_write.unwrap();
    assert_eq!((w.reg, w.old, w.new), (5, 0, -3));
    assert_eq!((d.pc_before, d.pc_after, d.instr_index), (0, 4, 0));
    let d = cpu.step();
    let m = d.mem_write.unwrap();
    assert_eq!((m.addr, m.old, m.new), (200, 0, -3));
    assert_eq!(cpu.read_word(200), Some(-3));
    let d = cpu.step();
    let w = d.reg_write.unwrap();
    assert_eq!((w.reg, w.new), (1, 12));
    assert_eq!(d.pc_after, 16);
}

#[test]
fn overflowing_division() {
    let mut cpu = Cpu::new(&program_bytes(&[
        Instr::Lui { rd: 5, imm: 0x80000 },
        Instr::Addi { rd: 6, rs1: 0, imm: -1 },
        Instr::Div { rd: 7, rs1: 5, rs2: 6 },
        Instr::Rem { rd: 28, rs1: 5, rs2: 6 },
        Instr::Addi { rd: 29, rs1: 0, imm: -7 },
        Instr::Addi { rd: 30, rs1: 0, imm: 2 },
        Instr::Div { rd: 31, rs1: 29, rs2: 30 },
        Instr::Rem { rd: 9, rs1: 29, rs2: 30 },
    ]));
    for _ in 0..8 {
        cpu.step();
    }
    assert_eq!(cpu.regs[7], i32::MIN);
    assert_eq!(cpu.regs[28], 0);
    assert_eq!(cpu.regs[31], -3);
    assert_eq!(cpu.regs[9], -1);
}

// ---- the whole engine ------------------------------------------------------------

#[test]
fn compile_listing_matches_instructions() {
    let compilation = compile("let x = 42; print(x);").unwrap();
    assert_eq!(compilation.data_base, 4 * compilation.instrs.len() as u32);
    for (i, row) in compilation.instrs.iter().enumerate() {
        assert_eq!(row.addr, 4 * i as u32);
        let instr = decode(row.word).unwrap();
        assert_eq!(row.assembly, instr.text(row.addr));
    }
    assert_eq!(compilation.instrs[2].assembly, "addi t0, zero, 42");
    let bytes = compilation.bytes();
    assert_eq!(bytes.len(), 4 * compilation.instrs.len());
    assert_eq!(&bytes[8..12], &compilation.instrs[2].word.to_le_bytes());
    assert_eq!(compilation.tokens.len(), 10);
    assert_eq!(compilation.ast.len(), 2);
}

#[test]
fn compile_reports_first_error() {
    assert_eq!(compile("let x = $;").unwrap_err().message, "unexpected character '$'");
    assert_eq!(compile("let x = 1").unwrap_err().message, "expected ';', found end of input");
    assert_eq!(compile("print(y);").unwrap_err().message, "variable 'y' is not declared");
    let err = compile("let y = 1; let y = 2;").unwrap_err();
    assert_eq!(err.message, "variable 'y' is already declared");
    assert_eq!(err.span, Some(Span::new(11, 21)));
}

#[test]
fn run_stops_at_step_limit() {
    let compilation = compile("let i = 0; while (i < 1000) { i = i + 1; }").unwrap();
    let mut vm = Vm::new(&compilation);
    let deltas = vm.run(5);
    assert_eq!(deltas.len(), 5);
    assert!(!vm.halted());
    let more = vm.run(100_000);
    assert!(vm.halted());
    assert!(!more.is_empty());
    assert!(vm.run(10).is_empty());
    let st = vm.state(1);
    assert_eq!(st.var_values, vec![1000]);
}

#[test]
fn step_traces_source_span() {
    let src = "let x = 5;";
    let compilation = compile(src).unwrap();
    let mut vm = Vm::new(&compilation);
    let first = vm.step();
    assert_eq!(first.span, None); // prologue
    vm.step();
    let t = vm.step();
    assert_eq!(t.delta.instr_index, 2);
    assert_eq!(t.span, Some(Span::new(8, 9)));
}

#[test]
fn state_beyond_memory_reads_zero() {
    let compilation = compile("let x = 1;").unwrap();
    let vm = Vm::new(&compilation);
    let st = vm.state(3);
    assert_eq!(st.var_values, vec![0, 0, 0]);
    let st = vm.state(0);
    assert!(st.var_values.is_empty());
}

#[test]
fn negative_numbers_print() {
    assert_eq!(output_of("print(-2147483647 - 1); print(0 - 45 % 7);", 100), "-2147483648\n-3\n");
}

#[test]
fn if_without_else_and_comparisons() {
    let src = "let a = 5; if (a <= 5) { print(1); } if (a > 5) { print(2); } if (a >= 5) { print(3); } if (a == 4) { print(4); }";
    assert_eq!(output_of(src, 1000), "1\n3\n");
}

#[test]
fn every_span_points_into_source() {
    let src = "let a = 2; while (a < 9) { if (a == 4) { print(-a); } else { a = a * 2; } }";
    let compilation = compile(src).unwrap();
    for t in &compilation.tokens {
        assert!(t.span.start < t.span.end && t.span.end as usize <= src.len());
    }
    for s in &compilation.ast {
        assert!(s.span.start < s.span.end && s.span.end as usize <= src.len());
    }
    let mut tagged = 0;
    for row in &compilation.instrs {
        if let Some(sp) = row.span {
            tagged += 1;
            assert!(sp.start < sp.end && sp.end as usize <= src.len());
        }
    }
    assert_eq!(tagged, compilation.instrs.len() - 4);
}

#[test]
fn ast_clone_is_a_deep_copy() {
    let stmts = parse(&lex("if (1 < 2) { let a = -(3 * 4); } else { print(5); } while (0) { }").unwrap()).unwrap();
    let copy: Vec<engine::ast::Stmt> = stmts.iter().map(|s| s.clone()).collect();
    assert_eq!(format!("{:?}", copy), format!("{:?}", stmts));
}

#[test]
fn expression_values_match_their_meaning() {
    let a: i32 = 123456789;
    let b: i32 = -98765;
    let src = format!(
        "let a = {a}; let b = 0 - {}; print(a * b); print(a + b); print(a / b); print(a % b); \
         print(a / 0); print(a % 0); print(a < b); print(a >= b); print(a == a); print(a != a); print(-a); print(4096);",
        -b
    );
    let expected: Vec<i32> = vec![
        a.wrapping_mul(b),
        a.wrapping_add(b),
        a / b,
        a % b,
        -1,
        a,
        0,
        1,
        1,
        0,
        -a,
        4096,
    ];
    let want: String = expected.iter().map(|v| format!("{v}\n")).collect();
    assert_eq!(output_of(&src, 1000), want);
}

#[test]
fn compiled_program_does_what_it_means() {
    let src = "let n = 10; let a = 0; let b = 1; let i = 0; \
               while (i < n) { print(a); let t = a + b; a = b; b = t; i = i + 1; } \
               if (a > 50) { print(a); } else { print(0); }";
    let compilation = compile(src).unwrap();
    let mut vm = Vm::new(&compilation);
    let deltas = vm.run(100_000);
    assert!(vm.halted());
    assert!(deltas.iter().all(|d| d.delta.error.is_none()));
    let last = deltas.last().unwrap();
    assert!(last.delta.halted);
    assert_eq!(last.delta.instr_index as usize, compilation.instrs.len() - 1);
    let out: String = deltas.iter().filter_map(|d| d.delta.output.clone()).collect();
    assert_eq!(out, "0\n1\n1\n2\n3\n5\n8\n13\n21\n34\n55\n");
    let names: Vec<String> = compilation.vars.iter().map(|v| v.name.clone()).collect();
    assert_eq!(names, vec!["n", "a", "b", "i", "t"]);
    assert_eq!(vm.state(5).var_values, vec![10, 55, 89, 10, 89]);
}

#[test]
fn compiling_twice_gives_the_same_result() {
    let src = "let a = 3; while (a > 0) { print(a * 100000); a = a - 1; }";
    let first = compile(src).unwrap();
    let second = compile(src).unwrap();
    assert_eq!(format!("{:?}", first), format!("{:?}", second));
    let bad = "let a = 1; let a = 2;";
    let e1 = compile(bad).unwrap_err();
    let e2 = compile(bad).unwrap_err();
    assert_eq!(e1.message, e2.message);
    assert_eq!(e1.span, e2.span);
}

#[test]
fn small_program_words_decode_to_their_listing() {
    let src = "let a = 100000; let b = -3; while (a > 0) { if (a % 7 == b) { print(a); } else { a = a - 1234; } a = a / 2; } print(b);";
    let compilation = compile(src).unwrap();
    assert!(compilation.instrs.len() <= 1024);
    for row in &compilation.instrs {
        let instr = decode(row.word).unwrap();
        assert_eq!(encode(instr), row.word);
        assert_eq!(instr.text(row.addr), row.assembly);
    }
}
