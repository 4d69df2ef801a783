//! The RV32IM instruction subset the compiler targets.
//!
//! Real RISC-V: these instructions assemble to genuine 32-bit RV32IM words
//! (see `assembler.rs`).
use vstd::prelude::*;
use crate::fmt::{dec_text, hex_text, push_dec, push_hex};

verus! {

/// A register index x0..x31. x0 is hardwired to zero.
pub type Reg = u8;

pub const ZERO: Reg = 0;

/// Global pointer: base address of the variable slots.
pub const GP: Reg = 3;

/// Syscall argument register.
pub const A0: Reg = 10;

/// Syscall number register.
pub const A7: Reg = 17;

/// Number of temporaries available to the expression register stack.
pub const NUM_TEMPS: usize = 7;

/// Environment-call numbers (placed in a7 before `ecall`).
pub const SYSCALL_PRINT_INT: i32 = 1;

pub const SYSCALL_EXIT: i32 = 10;

/// The temporaries used as the expression evaluation stack, in stack order:
/// t0, t1, t2, t3, t4, t5, t6.
pub open spec fn temp_reg(i: int) -> Reg {
    if i == 0 {
        5
    } else if i == 1 {
        6
    } else if i == 2 {
        7
    } else if i == 3 {
        28
    } else if i == 4 {
        29
    } else if i == 5 {
        30
    } else {
        31
    }
}

/// Register of the `i`-th slot of the expression register stack.
pub fn temp(i: usize) -> (r: Reg)
    requires
        i < NUM_TEMPS,
    ensures
        r == temp_reg(i as int),
{
    if i == 0 {
        5
    } else if i == 1 {
        6
    } else if i == 2 {
        7
    } else if i == 3 {
        28
    } else if i == 4 {
        29
    } else if i == 5 {
        30
    } else {
        31
    }
}

#[derive(Clone, Copy, Debug, PartialEq, Eq, Structural)]
pub enum Instr {
    /// U-type. `imm` is the 20-bit value placed in bits [31:12] of the register.
    Lui { rd: Reg, imm: i32 },
    Addi { rd: Reg, rs1: Reg, imm: i32 },
    Sltiu { rd: Reg, rs1: Reg, imm: i32 },
    Xori { rd: Reg, rs1: Reg, imm: i32 },
    Add { rd: Reg, rs1: Reg, rs2: Reg },
    Sub { rd: Reg, rs1: Reg, rs2: Reg },
    Mul { rd: Reg, rs1: Reg, rs2: Reg },
    Div { rd: Reg, rs1: Reg, rs2: Reg },
    Rem { rd: Reg, rs1: Reg, rs2: Reg },
    Slt { rd: Reg, rs1: Reg, rs2: Reg },
    Sltu { rd: Reg, rs1: Reg, rs2: Reg },
    Lw { rd: Reg, rs1: Reg, imm: i32 },
    /// `sw rs2, imm(rs1)`
    Sw { rs1: Reg, rs2: Reg, imm: i32 },
    /// Branches: `offset` is a byte offset relative to this instruction.
    Beq { rs1: Reg, rs2: Reg, offset: i32 },
    Bne { rs1: Reg, rs2: Reg, offset: i32 },
    Blt { rs1: Reg, rs2: Reg, offset: i32 },
    Bge { rs1: Reg, rs2: Reg, offset: i32 },
    /// Jump: `offset` is a byte offset relative to this instruction.
    Jal { rd: Reg, offset: i32 },
    Ecall,
}

/// RISC-V ABI register names, indexed by register number.
pub open spec fn reg_text(r: Reg) -> Seq<char> {
    match r {
        0 => "zero"@,
        1 => "ra"@,
        2 => "sp"@,
        3 => "gp"@,
        4 => "tp"@,
        5 => "t0"@,
        6 => "t1"@,
        7 => "t2"@,
        8 => "s0"@,
        9 => "s1"@,
        10 => "a0"@,
        11 => "a1"@,
        12 => "a2"@,
        13 => "a3"@,
        14 => "a4"@,
        15 => "a5"@,
        16 => "a6"@,
        17 => "a7"@,
        18 => "s2"@,
        19 => "s3"@,
        20 => "s4"@,
        21 => "s5"@,
        22 => "s6"@,
        23 => "s7"@,
        24 => "s8"@,
        25 => "s9"@,
        26 => "s10"@,
        27 => "s11"@,
        28 => "t3"@,
        29 => "t4"@,
        30 => "t5"@,
        _ => "t6"@,
    }
}

/// The ABI name of register `r`.
pub fn reg_name(r: Reg) -> (name: &'static str)
    requires
        r < 32,
    ensures
        name@ == reg_text(r),
{
    match r {
        0 => "zero",
        1 => "ra",
        2 => "sp",
        3 => "gp",
        4 => "tp",
        5 => "t0",
        6 => "t1",
        7 => "t2",
        8 => "s0",
        9 => "s1",
        10 => "a0",
        11 => "a1",
        12 => "a2",
        13 => "a3",
        14 => "a4",
        15 => "a5",
        16 => "a6",
        17 => "a7",
        18 => "s2",
        19 => "s3",
        20 => "s4",
        21 => "s5",
        22 => "s6",
        23 => "s7",
        24 => "s8",
        25 => "s9",
        26 => "s10",
        27 => "s11",
        28 => "t3",
        29 => "t4",
        30 => "t5",
        _ => "t6",
    }
}

/// Every register field names one of x0..x31.
pub open spec fn regs_in_range(instr: Instr) -> bool {
    match instr {
        Instr::Lui { rd, .. } | Instr::Jal { rd, .. } => rd < 32,
        Instr::Addi { rd, rs1, .. } | Instr::Sltiu { rd, rs1, .. } | Instr::Xori { rd, rs1, .. }
        | Instr::Lw { rd, rs1, .. } => rd < 32 && rs1 < 32,
        Instr::Add { rd, rs1, rs2 } | Instr::Sub { rd, rs1, rs2 } | Instr::Mul { rd, rs1, rs2 }
        | Instr::Div { rd, rs1, rs2 } | Instr::Rem { rd, rs1, rs2 } | Instr::Slt { rd, rs1, rs2 }
        | Instr::Sltu { rd, rs1, rs2 } => rd < 32 && rs1 < 32 && rs2 < 32,
        Instr::Sw { rs1, rs2, .. } | Instr::Beq { rs1, rs2, .. } | Instr::Bne { rs1, rs2, .. }
        | Instr::Blt { rs1, rs2, .. } | Instr::Bge { rs1, rs2, .. } => rs1 < 32 && rs2 < 32,
        Instr::Ecall => true,
    }
}

/// The absolute address `offset` bytes away from `addr`, wrapping around
/// the 32-bit address space.
pub open spec fn target_addr(addr: u32, offset: i32) -> u32 {
    (addr + offset) as u32
}

/// `op rd, rs1, rs2`
pub open spec fn r_line(op: Seq<char>, rd: Reg, rs1: Reg, rs2: Reg) -> Seq<char> {
    op + " "@ + reg_text(rd) + ", "@ + reg_text(rs1) + ", "@ + reg_text(rs2)
}

/// `op rd, rs1, imm` with a decimal immediate.
pub open spec fn i_line(op: Seq<char>, rd: Reg, rs1: Reg, imm: i32) -> Seq<char> {
    op + " "@ + reg_text(rd) + ", "@ + reg_text(rs1) + ", "@ + dec_text(imm as int)
}

/// `op rs1, rs2, target` with the target in hex, at least four digits.
pub open spec fn b_line(op: Seq<char>, rs1: Reg, rs2: Reg, target: u32) -> Seq<char> {
    op + " "@ + reg_text(rs1) + ", "@ + reg_text(rs2) + ", "@ + hex_text(target as nat, 4)
}

/// Human-readable assembly text of `instr` placed at address `addr`.
pub open spec fn instr_text(instr: Instr, addr: u32) -> Seq<char> {
    match instr {
        Instr::Lui { rd, imm } => "lui "@ + reg_text(rd) + ", "@ + hex_text((imm as u32) as nat, 1),
        Instr::Addi { rd, rs1, imm } => i_line("addi"@, rd, rs1, imm),
        Instr::Sltiu { rd, rs1, imm } => i_line("sltiu"@, rd, rs1, imm),
        Instr::Xori { rd, rs1, imm } => i_line("xori"@, rd, rs1, imm),
        Instr::Add { rd, rs1, rs2 } => r_line("add"@, rd, rs1, rs2),
        Instr::Sub { rd, rs1, rs2 } => r_line("sub"@, rd, rs1, rs2),
        Instr::Mul { rd, rs1, rs2 } => r_line("mul"@, rd, rs1, rs2),
        Instr::Div { rd, rs1, rs2 } => r_line("div"@, rd, rs1, rs2),
        Instr::Rem { rd, rs1, rs2 } => r_line("rem"@, rd, rs1, rs2),
        Instr::Slt { rd, rs1, rs2 } => r_line("slt"@, rd, rs1, rs2),
        Instr::Sltu { rd, rs1, rs2 } => r_line("sltu"@, rd, rs1, rs2),
        Instr::Lw { rd, rs1, imm } => "lw "@ + reg_text(rd) + ", "@ + dec_text(imm as int) + "("@
            + reg_text(rs1) + ")"@,
        Instr::Sw { rs1, rs2, imm } => "sw "@ + reg_text(rs2) + ", "@ + dec_text(imm as int) + "("@
            + reg_text(rs1) + ")"@,
        Instr::Beq { rs1, rs2, offset } => b_line("beq"@, rs1, rs2, target_addr(addr, offset)),
        Instr::Bne { rs1, rs2, offset } => b_line("bne"@, rs1, rs2, target_addr(addr, offset)),
        Instr::Blt { rs1, rs2, offset } => b_line("blt"@, rs1, rs2, target_addr(addr, offset)),
        Instr::Bge { rs1, rs2, offset } => b_line("bge"@, rs1, rs2, target_addr(addr, offset)),
        Instr::Jal { rd, offset } => if rd == ZERO {
            "j "@ + hex_text(target_addr(addr, offset) as nat, 4)
        } else {
            "jal "@ + reg_text(rd) + ", "@ + hex_text(target_addr(addr, offset) as nat, 4)
        },
        Instr::Ecall => "ecall"@,
    }
}

fn push_reg(s: &mut String, r: Reg)
    requires
        r < 32,
    ensures
        final(s)@ == old(s)@ + reg_text(r),
{
    s.append(reg_name(r));
}

fn target(addr: u32, offset: i32) -> (t: u32)
    ensures
        t == target_addr(addr, offset),
{
    (addr as i64 + offset as i64) as u32
}

fn r_text(op: &str, rd: Reg, rs1: Reg, rs2: Reg) -> (s: String)
    requires
        rd < 32,
        rs1 < 32,
        rs2 < 32,
    ensures
        s@ == r_line(op@, rd, rs1, rs2),
{
    let mut s = String::from_str(op);
    s.append(" ");
    push_reg(&mut s, rd);
    s.append(", ");
    push_reg(&mut s, rs1);
    s.append(", ");
    push_reg(&mut s, rs2);
    assert(s@ =~= r_line(op@, rd, rs1, rs2));
    s
}

fn i_text(op: &str, rd: Reg, rs1: Reg, imm: i32) -> (s: String)
    requires
        rd < 32,
        rs1 < 32,
    ensures
        s@ == i_line(op@, rd, rs1, imm),
{
    let mut s = String::from_str(op);
    s.append(" ");
    push_reg(&mut s, rd);
    s.append(", ");
    push_reg(&mut s, rs1);
    s.append(", ");
    push_dec(&mut s, imm);
    assert(s@ =~= i_line(op@, rd, rs1, imm));
    s
}

fn b_text(op: &str, rs1: Reg, rs2: Reg, target: u32) -> (s: String)
    requires
        rs1 < 32,
        rs2 < 32,
    ensures
        s@ == b_line(op@, rs1, rs2, target),
{
    let mut s = String::from_str(op);
    s.append(" ");
    push_reg(&mut s, rs1);
    s.append(", ");
    push_reg(&mut s, rs2);
    s.append(", ");
    push_hex(&mut s, target, 4);
    assert(s@ =~= b_line(op@, rs1, rs2, target));
    s
}

impl Instr {
    /// Human-readable assembly text. `addr` is the instruction's own
    /// address, used to render branch and jump targets as absolute addresses.
    pub fn text(&self, addr: u32) -> (s: String)
        requires
            regs_in_range(*self),
        ensures
            s@ == instr_text(*self, addr),
    {
        match *self {
            Instr::Lui { rd, imm } => {
                let mut s = String::from_str("lui ");
                push_reg(&mut s, rd);
                s.append(", ");
                push_hex(&mut s, imm as u32, 1);
                assert(s@ =~= instr_text(*self, addr));
                s
            },
            Instr::Addi { rd, rs1, imm } => i_text("addi", rd, rs1, imm),
            Instr::Sltiu { rd, rs1, imm } => i_text("sltiu", rd, rs1, imm),
            Instr::Xori { rd, rs1, imm } => i_text("xori", rd, rs1, imm),
            Instr::Add { rd, rs1, rs2 } => r_text("add", rd, rs1, rs2),
            Instr::Sub { rd, rs1, rs2 } => r_text("sub", rd, rs1, rs2),
            Instr::Mul { rd, rs1, rs2 } => r_text("mul", rd, rs1, rs2),
            Instr::Div { rd, rs1, rs2 } => r_text("div", rd, rs1, rs2),
            Instr::Rem { rd, rs1, rs2 } => r_text("rem", rd, rs1, rs2),
            Instr::Slt { rd, rs1, rs2 } => r_text("slt", rd, rs1, rs2),
            Instr::Sltu { rd, rs1, rs2 } => r_text("sltu", rd, rs1, rs2),
            Instr::Lw { rd, rs1, imm } => {
                let mut s = String::from_str("lw ");
                push_reg(&mut s, rd);
                s.append(", ");
                push_dec(&mut s, imm);
                s.append("(");
                push_reg(&mut s, rs1);
                s.append(")");
                assert(s@ =~= instr_text(*self, addr));
                s
            },
            Instr::Sw { rs1, rs2, imm } => {
                let mut s = String::from_str("sw ");
                push_reg(&mut s, rs2);
                s.append(", ");
                push_dec(&mut s, imm);
                s.append("(");
                push_reg(&mut s, rs1);
                s.append(")");
                assert(s@ =~= instr_text(*self, addr));
                s
            },
            Instr::Beq { rs1, rs2, offset } => b_text("beq", rs1, rs2, target(addr, offset)),
            Instr::Bne { rs1, rs2, offset } => b_text("bne", rs1, rs2, target(addr, offset)),
            Instr::Blt { rs1, rs2, offset } => b_text("blt", rs1, rs2, target(addr, offset)),
            Instr::Bge { rs1, rs2, offset } => b_text("bge", rs1, rs2, target(addr, offset)),
            Instr::Jal { rd, offset } => {
                if rd == ZERO {
                    let mut s = String::from_str("j ");
                    push_hex(&mut s, target(addr, offset), 4);
                    assert(s@ =~= instr_text(*self, addr));
                    s
                } else {
                    let mut s = String::from_str("jal ");
                    push_reg(&mut s, rd);
                    s.append(", ");
                    push_hex(&mut s, target(addr, offset), 4);
                    assert(s@ =~= instr_text(*self, addr));
                    s
                }
            },
            Instr::Ecall => String::from_str("ecall"),
        }
    }
}

} // verus!
