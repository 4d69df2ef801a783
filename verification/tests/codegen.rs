use engine::codegen::{codegen, hi_lo, CodegenOutput};
use engine::ir::{Instr, GP};
use engine::lexer::lex;
use engine::parser::parse;

fn gen(src: &str) -> CodegenOutput {
    codegen(&parse(&lex(src).unwrap()).unwrap()).unwrap()
}

#[test]
fn hi_lo_roundtrips() {
    for v in [0, 1, 0x7ff, 0x800, 0x1000, 123456, -1, -2048, -123456, i32::MAX, i32::MIN] {
        let (hi, lo) = hi_lo(v);
        // reconstruct the way lui+addi would
        let got = ((hi << 12) as i32).wrapping_add(lo);
        assert_eq!(got, v, "hi_lo failed for {v}");
        assert!((-2048..=2047).contains(&lo), "lo out of addi range for {v}");
    }
}

#[test]
fn let_compiles_to_store() {
    let out = gen("let x = 7;");
    // prologue (2) + addi t0,zero,7 + sw t0,0(gp) + epilogue (2)
    assert_eq!(out.instrs.len(), 6);
    assert_eq!(out.instrs[2].instr, Instr::Addi { rd: 5, rs1: 0, imm: 7 });
    assert_eq!(out.instrs[3].instr, Instr::Sw { rs1: GP, rs2: 5, imm: 0 });
    assert_eq!(out.vars.len(), 1);
    assert_eq!(out.vars[0].name, "x");
    assert_eq!(out.vars[0].addr, out.data_base);
}

#[test]
fn every_body_instruction_has_provenance() {
    let out = gen("let x = 1; while (x < 5) { x = x + 1; } print(x);");
    // all instructions except the 2-instr prologue and 2-instr epilogue
    let body = &out.instrs[2..out.instrs.len() - 2];
    assert!(!body.is_empty());
    for e in body {
        assert!(e.node.is_some(), "missing node provenance: {:?}", e.instr);
        assert!(e.span.is_some(), "missing span provenance: {:?}", e.instr);
    }
}

#[test]
fn while_branches_resolve() {
    let out = gen("let i = 0; while (i < 3) { i = i + 1; }");
    // find the beq and the jal; their offsets must be non-zero and word-aligned
    let mut saw_beq = false;
    let mut saw_jal = false;
    for e in &out.instrs {
        match e.instr {
            Instr::Beq { offset, .. } => {
                saw_beq = true;
                assert!(offset > 0 && offset % 4 == 0, "beq offset {offset}");
            }
            Instr::Jal { rd: 0, offset } => {
                saw_jal = true;
                assert!(offset < 0 && offset % 4 == 0, "jal offset {offset}");
            }
            _ => {}
        }
    }
    assert!(saw_beq && saw_jal);
}

#[test]
fn undeclared_variable_is_an_error() {
    let toks = lex("x = 1;").unwrap();
    let ast = parse(&toks).unwrap();
    let err = codegen(&ast).unwrap_err();
    assert!(err.message.contains("not declared"));
}

#[test]
fn redeclaration_is_an_error() {
    let toks = lex("let x = 1; let x = 2;").unwrap();
    let ast = parse(&toks).unwrap();
    let err = codegen(&ast).unwrap_err();
    assert!(err.message.contains("already declared"));
}

#[test]
fn gp_prologue_points_past_code() {
    let out = gen("let x = 42; print(x);");
    let Instr::Lui { rd: GP, imm: hi } = out.instrs[0].instr else {
        panic!("expected lui gp prologue");
    };
    let Instr::Addi { rd: GP, imm: lo, .. } = out.instrs[1].instr else {
        panic!("expected addi gp prologue");
    };
    let base = ((hi << 12) as i32).wrapping_add(lo) as u32;
    assert_eq!(base, out.data_base);
    assert_eq!(base, (out.instrs.len() * 4) as u32);
}
