use engine::assembler::encode;
use engine::cpu::Cpu;
use engine::ir::Instr;
use engine::ir::Instr::{Addi, Beq, Div, Ecall, Lw, Mul, Rem, Sw};

fn program(instrs: &[Instr]) -> Vec<u8> {
    instrs.iter().flat_map(|i| encode(*i).to_le_bytes()).collect()
}

#[test]
fn executes_arithmetic() {
    let mut cpu = Cpu::new(&program(&[
        Addi { rd: 5, rs1: 0, imm: 6 },
        Addi { rd: 6, rs1: 0, imm: 7 },
        Mul { rd: 7, rs1: 5, rs2: 6 },
    ]));
    cpu.step();
    cpu.step();
    let d = cpu.step();
    assert_eq!(cpu.regs[7], 42);
    let w = d.reg_write.unwrap();
    assert_eq!((w.reg, w.old, w.new), (7, 0, 42));
    assert_eq!(d.pc_after, 12);
}

#[test]
fn x0_stays_zero() {
    let mut cpu = Cpu::new(&program(&[Addi { rd: 0, rs1: 0, imm: 99 }]));
    let d = cpu.step();
    assert_eq!(cpu.regs[0], 0);
    assert!(d.reg_write.is_none());
}

#[test]
fn branch_taken_and_not_taken() {
    // beq x0, x0: always taken, jumps over the addi
    let mut cpu = Cpu::new(&program(&[
        Beq { rs1: 0, rs2: 0, offset: 8 },
        Addi { rd: 5, rs1: 0, imm: 1 }, // skipped
        Addi { rd: 6, rs1: 0, imm: 2 },
    ]));
    let d = cpu.step();
    assert_eq!(d.pc_after, 8);
    cpu.step();
    assert_eq!(cpu.regs[5], 0);
    assert_eq!(cpu.regs[6], 2);
}

#[test]
fn store_load_roundtrip_with_delta() {
    let mut cpu = Cpu::new(&program(&[
        Addi { rd: 5, rs1: 0, imm: 77 },
        Sw { rs1: 0, rs2: 5, imm: 100 },
        Lw { rd: 6, rs1: 0, imm: 100 },
    ]));
    cpu.step();
    let d = cpu.step();
    let w = d.mem_write.unwrap();
    assert_eq!((w.addr, w.old, w.new), (100, 0, 77));
    cpu.step();
    assert_eq!(cpu.regs[6], 77);
}

#[test]
fn print_and_exit_ecalls() {
    let mut cpu = Cpu::new(&program(&[
        Addi { rd: 10, rs1: 0, imm: 42 }, // a0 = 42
        Addi { rd: 17, rs1: 0, imm: 1 },  // a7 = print
        Ecall,
        Addi { rd: 17, rs1: 0, imm: 10 }, // a7 = exit
        Ecall,
    ]));
    cpu.step();
    cpu.step();
    let d = cpu.step();
    assert_eq!(d.output.as_deref(), Some("42\n"));
    cpu.step();
    let d = cpu.step();
    assert!(d.halted);
    assert!(cpu.halted);
    // further steps are inert
    let d = cpu.step();
    assert!(d.halted);
    assert!(d.reg_write.is_none());
}

#[test]
fn division_follows_riscv_semantics() {
    let mut cpu = Cpu::new(&program(&[
        Addi { rd: 5, rs1: 0, imm: 7 },
        Div { rd: 6, rs1: 5, rs2: 0 }, // 7 / 0 = -1
        Rem { rd: 7, rs1: 5, rs2: 0 }, // 7 % 0 = 7
    ]));
    cpu.step();
    cpu.step();
    cpu.step();
    assert_eq!(cpu.regs[6], -1);
    assert_eq!(cpu.regs[7], 7);
}

#[test]
fn undecodable_word_faults() {
    let mut cpu = Cpu::new(&[0, 0, 0, 0]);
    let d = cpu.step();
    assert!(d.error.is_some());
    assert!(d.halted);
}
