//! Assembler: `Instr` to genuine 32-bit RV32IM machine words, and the decoder
//! that turns words back into instructions.
//!
//! The decoder is what the CPU simulator runs on: it decodes the actual bytes
//! in memory every cycle.
use vstd::prelude::*;
use crate::ir::{Instr, Reg};

verus! {

pub const OP_LUI: u32 = 0b0110111;

/// addi, sltiu, xori
pub const OP_IMM: u32 = 0b0010011;

/// add, sub, mul, ...
pub const OP_REG: u32 = 0b0110011;

/// lw
pub const OP_LOAD: u32 = 0b0000011;

/// sw
pub const OP_STORE: u32 = 0b0100011;

/// beq, bne, blt, bge
pub const OP_BRANCH: u32 = 0b1100011;

pub const OP_JAL: u32 = 0b1101111;

/// ecall
pub const OP_SYSTEM: u32 = 0b1110011;

// ---- field packing -------------------------------------------------------

#[verifier::allow_in_spec]
pub fn rd_bits(rd: Reg) -> u32
    returns
        (rd as u32) << 7u32,
{
    (rd as u32) << 7u32
}

#[verifier::allow_in_spec]
pub fn r_type(funct7: u32, rs2: Reg, rs1: Reg, funct3: u32, rd: Reg) -> u32
    returns
        (funct7 << 25u32) | ((rs2 as u32) << 20u32) | ((rs1 as u32) << 15u32) | (funct3 << 12u32)
            | rd_bits(rd) | OP_REG,
{
    (funct7 << 25u32) | ((rs2 as u32) << 20u32) | ((rs1 as u32) << 15u32) | (funct3 << 12u32)
        | rd_bits(rd) | OP_REG
}

/// I-type packing. Immediates outside -2048..=2047 keep their low 12 bits.
#[verifier::allow_in_spec]
pub fn i_type(imm: i32, rs1: Reg, funct3: u32, rd: Reg, opcode: u32) -> u32
    returns
        (((imm as u32) & 0xfffu32) << 20u32) | ((rs1 as u32) << 15u32) | (funct3 << 12u32)
            | rd_bits(rd) | opcode,
{
    (((imm as u32) & 0xfffu32) << 20u32) | ((rs1 as u32) << 15u32) | (funct3 << 12u32) | rd_bits(
        rd,
    ) | opcode
}

/// S-type packing. Immediates outside -2048..=2047 keep their low 12 bits.
#[verifier::allow_in_spec]
pub fn s_type(imm: i32, rs2: Reg, rs1: Reg, funct3: u32) -> u32
    returns
        ((((imm as u32) & 0xfffu32) >> 5u32) << 25u32) | ((rs2 as u32) << 20u32) | ((rs1 as u32)
            << 15u32) | (funct3 << 12u32) | ((((imm as u32) & 0xfffu32) & 0x1fu32) << 7u32)
            | OP_STORE,
{
    let imm = (imm as u32) & 0xfffu32;
    ((imm >> 5u32) << 25u32) | ((rs2 as u32) << 20u32) | ((rs1 as u32) << 15u32) | (funct3
        << 12u32) | ((imm & 0x1fu32) << 7u32) | OP_STORE
}

/// B-type packing of a byte offset; bit 0 and bits above 12 are dropped.
#[verifier::allow_in_spec]
pub fn b_type(offset: i32, rs2: Reg, rs1: Reg, funct3: u32) -> u32
    returns
        ((((offset as u32) & 0x1fffu32) >> 12u32 & 1u32) << 31u32) | (((((offset as u32)
            & 0x1fffu32) >> 5u32) & 0x3fu32) << 25u32) | ((rs2 as u32) << 20u32) | ((rs1 as u32)
            << 15u32) | (funct3 << 12u32) | (((((offset as u32) & 0x1fffu32) >> 1u32) & 0xfu32)
            << 8u32) | (((((offset as u32) & 0x1fffu32) >> 11u32) & 1u32) << 7u32) | OP_BRANCH,
{
    let imm = (offset as u32) & 0x1fffu32;
    ((imm >> 12u32 & 1u32) << 31u32) | (((imm >> 5u32) & 0x3fu32) << 25u32) | ((rs2 as u32)
        << 20u32) | ((rs1 as u32) << 15u32) | (funct3 << 12u32) | (((imm >> 1u32) & 0xfu32)
        << 8u32) | (((imm >> 11u32) & 1u32) << 7u32) | OP_BRANCH
}

/// J-type packing of a byte offset; bit 0 and bits above 20 are dropped.
#[verifier::allow_in_spec]
pub fn j_type(offset: i32, rd: Reg) -> u32
    returns
        (((((offset as u32) & 0x1fffffu32) >> 20u32) & 1u32) << 31u32) | (((((offset as u32)
            & 0x1fffffu32) >> 1u32) & 0x3ffu32) << 21u32) | (((((offset as u32) & 0x1fffffu32)
            >> 11u32) & 1u32) << 20u32) | (((((offset as u32) & 0x1fffffu32) >> 12u32) & 0xffu32)
            << 12u32) | rd_bits(rd) | OP_JAL,
{
    let imm = (offset as u32) & 0x1fffffu32;
    (((imm >> 20u32) & 1u32) << 31u32) | (((imm >> 1u32) & 0x3ffu32) << 21u32) | (((imm
        >> 11u32) & 1u32) << 20u32) | (((imm >> 12u32) & 0xffu32) << 12u32) | rd_bits(rd) | OP_JAL
}

// ---- immediate extraction (sign-extended) ---------------------------------

#[verifier::allow_in_spec]
pub fn i_imm(word: u32) -> i32
    returns
        (word as i32) >> 20u32,
{
    (word as i32) >> 20u32
}

#[verifier::allow_in_spec]
pub fn s_imm(word: u32) -> i32
    returns
        (((word as i32) >> 25u32) << 5u32) | (((word >> 7u32) & 0x1fu32) as i32),
{
    (((word as i32) >> 25u32) << 5u32) | (((word >> 7u32) & 0x1fu32) as i32)
}

#[verifier::allow_in_spec]
pub fn b_imm(word: u32) -> i32
    returns
        (((word as i32) >> 31u32) << 12u32) | ((((word >> 7u32) & 1u32) as i32) << 11u32) | ((((
        word >> 25u32) & 0x3fu32) as i32) << 5u32) | ((((word >> 8u32) & 0xfu32) as i32) << 1u32),
{
    let sign = (word as i32) >> 31u32;
    let b11 = ((word >> 7u32) & 1u32) as i32;
    let b10_5 = ((word >> 25u32) & 0x3fu32) as i32;
    let b4_1 = ((word >> 8u32) & 0xfu32) as i32;
    (sign << 12u32) | (b11 << 11u32) | (b10_5 << 5u32) | (b4_1 << 1u32)
}

#[verifier::allow_in_spec]
pub fn j_imm(word: u32) -> i32
    returns
        (((word as i32) >> 31u32) << 20u32) | ((((word >> 12u32) & 0xffu32) as i32) << 12u32) | (((
        (word >> 20u32) & 1u32) as i32) << 11u32) | ((((word >> 21u32) & 0x3ffu32) as i32)
            << 1u32),
{
    let sign = (word as i32) >> 31u32;
    let b19_12 = ((word >> 12u32) & 0xffu32) as i32;
    let b11 = ((word >> 20u32) & 1u32) as i32;
    let b10_1 = ((word >> 21u32) & 0x3ffu32) as i32;
    (sign << 20u32) | (b19_12 << 12u32) | (b11 << 11u32) | (b10_1 << 1u32)
}


// ---- whole instructions --------------------------------------------------

/// The 32-bit RV32IM word of an instruction. Register numbers are packed as
/// given; immediates and offsets keep the bits their field has room for.
pub open spec fn encoding(instr: Instr) -> u32 {
    match instr {
        Instr::Lui { rd, imm } => ((((imm as u32) & 0xfffffu32) << 12u32) | rd_bits(rd)) | OP_LUI,
        Instr::Addi { rd, rs1, imm } => i_type(imm, rs1, 0b000, rd, OP_IMM),
        Instr::Sltiu { rd, rs1, imm } => i_type(imm, rs1, 0b011, rd, OP_IMM),
        Instr::Xori { rd, rs1, imm } => i_type(imm, rs1, 0b100, rd, OP_IMM),
        Instr::Add { rd, rs1, rs2 } => r_type(0b0000000, rs2, rs1, 0b000, rd),
        Instr::Sub { rd, rs1, rs2 } => r_type(0b0100000, rs2, rs1, 0b000, rd),
        Instr::Slt { rd, rs1, rs2 } => r_type(0b0000000, rs2, rs1, 0b010, rd),
        Instr::Sltu { rd, rs1, rs2 } => r_type(0b0000000, rs2, rs1, 0b011, rd),
        Instr::Mul { rd, rs1, rs2 } => r_type(0b0000001, rs2, rs1, 0b000, rd),
        Instr::Div { rd, rs1, rs2 } => r_type(0b0000001, rs2, rs1, 0b100, rd),
        Instr::Rem { rd, rs1, rs2 } => r_type(0b0000001, rs2, rs1, 0b110, rd),
        Instr::Lw { rd, rs1, imm } => i_type(imm, rs1, 0b010, rd, OP_LOAD),
        Instr::Sw { rs1, rs2, imm } => s_type(imm, rs2, rs1, 0b010),
        Instr::Beq { rs1, rs2, offset } => b_type(offset, rs2, rs1, 0b000),
        Instr::Bne { rs1, rs2, offset } => b_type(offset, rs2, rs1, 0b001),
        Instr::Blt { rs1, rs2, offset } => b_type(offset, rs2, rs1, 0b100),
        Instr::Bge { rs1, rs2, offset } => b_type(offset, rs2, rs1, 0b101),
        Instr::Jal { rd, offset } => j_type(offset, rd),
        Instr::Ecall => OP_SYSTEM,
    }
}

/// The instruction a 32-bit word stands for, or `None` when the word is not
/// one of the supported RV32IM instructions.
pub open spec fn decoding(word: u32) -> Option<Instr> {
    let opcode = word & 0x7fu32;
    let rd = ((word >> 7u32) & 0x1fu32) as u8;
    let funct3 = (word >> 12u32) & 0x7u32;
    let rs1 = ((word >> 15u32) & 0x1fu32) as u8;
    let rs2 = ((word >> 20u32) & 0x1fu32) as u8;
    let funct7 = word >> 25u32;
    if opcode == OP_LUI {
        Some(Instr::Lui { rd, imm: (word >> 12u32) as i32 })
    } else if opcode == OP_IMM {
        let imm = i_imm(word);
        if funct3 == 0b000 {
            Some(Instr::Addi { rd, rs1, imm })
        } else if funct3 == 0b011 {
            Some(Instr::Sltiu { rd, rs1, imm })
        } else if funct3 == 0b100 {
            Some(Instr::Xori { rd, rs1, imm })
        } else {
            None
        }
    } else if opcode == OP_REG {
        if funct7 == 0b0000000 && funct3 == 0b000 {
            Some(Instr::Add { rd, rs1, rs2 })
        } else if funct7 == 0b0100000 && funct3 == 0b000 {
            Some(Instr::Sub { rd, rs1, rs2 })
        } else if funct7 == 0b0000000 && funct3 == 0b010 {
            Some(Instr::Slt { rd, rs1, rs2 })
        } else if funct7 == 0b0000000 && funct3 == 0b011 {
            Some(Instr::Sltu { rd, rs1, rs2 })
        } else if funct7 == 0b0000001 && funct3 == 0b000 {
            Some(Instr::Mul { rd, rs1, rs2 })
        } else if funct7 == 0b0000001 && funct3 == 0b100 {
            Some(Instr::Div { rd, rs1, rs2 })
        } else if funct7 == 0b0000001 && funct3 == 0b110 {
            Some(Instr::Rem { rd, rs1, rs2 })
        } else {
            None
        }
    } else if opcode == OP_LOAD && funct3 == 0b010 {
        Some(Instr::Lw { rd, rs1, imm: i_imm(word) })
    } else if opcode == OP_STORE && funct3 == 0b010 {
        Some(Instr::Sw { rs1, rs2, imm: s_imm(word) })
    } else if opcode == OP_BRANCH {
        let offset = b_imm(word);
        if funct3 == 0b000 {
            Some(Instr::Beq { rs1, rs2, offset })
        } else if funct3 == 0b001 {
            Some(Instr::Bne { rs1, rs2, offset })
        } else if funct3 == 0b100 {
            Some(Instr::Blt { rs1, rs2, offset })
        } else if funct3 == 0b101 {
            Some(Instr::Bge { rs1, rs2, offset })
        } else {
            None
        }
    } else if opcode == OP_JAL {
        Some(Instr::Jal { rd, offset: j_imm(word) })
    } else if opcode == OP_SYSTEM && word == OP_SYSTEM {
        Some(Instr::Ecall)
    } else {
        None
    }
}

/// Assemble one instruction into its 32-bit machine word.
pub fn encode(instr: Instr) -> (word: u32)
    ensures
        word == encoding(instr),
{
    match instr {
        Instr::Lui { rd, imm } => ((((imm as u32) & 0xfffffu32) << 12u32) | rd_bits(rd)) | OP_LUI,
        Instr::Addi { rd, rs1, imm } => i_type(imm, rs1, 0b000, rd, OP_IMM),
        Instr::Sltiu { rd, rs1, imm } => i_type(imm, rs1, 0b011, rd, OP_IMM),
        Instr::Xori { rd, rs1, imm } => i_type(imm, rs1, 0b100, rd, OP_IMM),
        Instr::Add { rd, rs1, rs2 } => r_type(0b0000000, rs2, rs1, 0b000, rd),
        Instr::Sub { rd, rs1, rs2 } => r_type(0b0100000, rs2, rs1, 0b000, rd),
        Instr::Slt { rd, rs1, rs2 } => r_type(0b0000000, rs2, rs1, 0b010, rd),
        Instr::Sltu { rd, rs1, rs2 } => r_type(0b0000000, rs2, rs1, 0b011, rd),
        Instr::Mul { rd, rs1, rs2 } => r_type(0b0000001, rs2, rs1, 0b000, rd),
        Instr::Div { rd, rs1, rs2 } => r_type(0b0000001, rs2, rs1, 0b100, rd),
        Instr::Rem { rd, rs1, rs2 } => r_type(0b0000001, rs2, rs1, 0b110, rd),
        Instr::Lw { rd, rs1, imm } => i_type(imm, rs1, 0b010, rd, OP_LOAD),
        Instr::Sw { rs1, rs2, imm } => s_type(imm, rs2, rs1, 0b010),
        Instr::Beq { rs1, rs2, offset } => b_type(offset, rs2, rs1, 0b000),
        Instr::Bne { rs1, rs2, offset } => b_type(offset, rs2, rs1, 0b001),
        Instr::Blt { rs1, rs2, offset } => b_type(offset, rs2, rs1, 0b100),
        Instr::Bge { rs1, rs2, offset } => b_type(offset, rs2, rs1, 0b101),
        Instr::Jal { rd, offset } => j_type(offset, rd),
        Instr::Ecall => OP_SYSTEM,
    }
}

/// Decode a 32-bit word back into an instruction (`None` for anything that
/// is not in the supported subset).
pub fn decode(word: u32) -> (res: Option<Instr>)
    ensures
        res == decoding(word),
{
    let opcode = word & 0x7fu32;
    let rd = ((word >> 7u32) & 0x1fu32) as u8;
    let funct3 = (word >> 12u32) & 0x7u32;
    let rs1 = ((word >> 15u32) & 0x1fu32) as u8;
    let rs2 = ((word >> 20u32) & 0x1fu32) as u8;
    let funct7 = word >> 25u32;
    if opcode == OP_LUI {
        Some(Instr::Lui { rd, imm: (word >> 12u32) as i32 })
    } else if opcode == OP_IMM {
        let imm = i_imm(word);
        if funct3 == 0b000 {
            Some(Instr::Addi { rd, rs1, imm })
        } else if funct3 == 0b011 {
            Some(Instr::Sltiu { rd, rs1, imm })
        } else if funct3 == 0b100 {
            Some(Instr::Xori { rd, rs1, imm })
        } else {
            None
        }
    } else if opcode == OP_REG {
        if funct7 == 0b0000000 && funct3 == 0b000 {
            Some(Instr::Add { rd, rs1, rs2 })
        } else if funct7 == 0b0100000 && funct3 == 0b000 {
            Some(Instr::Sub { rd, rs1, rs2 })
        } else if funct7 == 0b0000000 && funct3 == 0b010 {
            Some(Instr::Slt { rd, rs1, rs2 })
        } else if funct7 == 0b0000000 && funct3 == 0b011 {
            Some(Instr::Sltu { rd, rs1, rs2 })
        } else if funct7 == 0b0000001 && funct3 == 0b000 {
            Some(Instr::Mul { rd, rs1, rs2 })
        } else if funct7 == 0b0000001 && funct3 == 0b100 {
            Some(Instr::Div { rd, rs1, rs2 })
        } else if funct7 == 0b0000001 && funct3 == 0b110 {
            Some(Instr::Rem { rd, rs1, rs2 })
        } else {
            None
        }
    } else if opcode == OP_LOAD && funct3 == 0b010 {
        Some(Instr::Lw { rd, rs1, imm: i_imm(word) })
    } else if opcode == OP_STORE && funct3 == 0b010 {
        Some(Instr::Sw { rs1, rs2, imm: s_imm(word) })
    } else if opcode == OP_BRANCH {
        let offset = b_imm(word);
        if funct3 == 0b000 {
            Some(Instr::Beq { rs1, rs2, offset })
        } else if funct3 == 0b001 {
            Some(Instr::Bne { rs1, rs2, offset })
        } else if funct3 == 0b100 {
            Some(Instr::Blt { rs1, rs2, offset })
        } else if funct3 == 0b101 {
            Some(Instr::Bge { rs1, rs2, offset })
        } else {
            None
        }
    } else if opcode == OP_JAL {
        Some(Instr::Jal { rd, offset: j_imm(word) })
    } else if opcode == OP_SYSTEM && word == OP_SYSTEM {
        Some(Instr::Ecall)
    } else {
        None
    }
}

// ---- round trip ----------------------------------------------------------

/// Every field of the instruction fits the field it is packed into:
/// registers are x0..x31, I/S immediates are 12-bit signed, the `lui`
/// immediate is 20-bit unsigned, branch and jump offsets are even and fit
/// 13 and 21 signed bits.
pub open spec fn fits_fields(instr: Instr) -> bool {
    match instr {
        Instr::Lui { rd, imm } => rd < 32 && 0 <= imm < 0x100000,
        Instr::Addi { rd, rs1, imm } | Instr::Sltiu { rd, rs1, imm } | Instr::Xori { rd, rs1, imm }
        | Instr::Lw { rd, rs1, imm } => rd < 32 && rs1 < 32 && -2048 <= imm <= 2047,
        Instr::Add { rd, rs1, rs2 } | Instr::Sub { rd, rs1, rs2 } | Instr::Mul { rd, rs1, rs2 }
        | Instr::Div { rd, rs1, rs2 } | Instr::Rem { rd, rs1, rs2 } | Instr::Slt { rd, rs1, rs2 }
        | Instr::Sltu { rd, rs1, rs2 } => rd < 32 && rs1 < 32 && rs2 < 32,
        Instr::Sw { rs1, rs2, imm } => rs1 < 32 && rs2 < 32 && -2048 <= imm <= 2047,
        Instr::Beq { rs1, rs2, offset } | Instr::Bne { rs1, rs2, offset } | Instr::Blt {
            rs1,
            rs2,
            offset,
        } | Instr::Bge { rs1, rs2, offset } => rs1 < 32 && rs2 < 32 && offset % 2 == 0 && -4096
            <= offset <= 4094,
        Instr::Jal { rd, offset } => rd < 32 && offset % 2 == 0 && -0x100000 <= offset < 0x100000,
        Instr::Ecall => true,
    }
}

proof fn bv_u_type(imm: i32, rd: u32, w: u32)
    by (bit_vector)
    requires
        rd < 32,
        0 <= imm < 0x100000,
        w == ((((imm as u32) & 0xfffffu32) << 12u32) | (rd << 7u32)) | 0b0110111u32,
    ensures
        w & 0x7fu32 == 0b0110111u32,
        (w >> 7u32) & 0x1fu32 == rd,
        (w >> 12u32) as i32 == imm,
{
}

proof fn bv_u_type_back(w: u32)
    by (bit_vector)
    requires
        w & 0x7fu32 == 0b0110111u32,
    ensures
        (((((w >> 12u32) as i32) as u32) & 0xfffffu32) << 12u32) | (((w >> 7u32) & 0x1fu32)
            << 7u32) | 0b0110111u32 == w,
        0 <= ((w >> 12u32) as i32) < 0x100000,
{
}

proof fn bv_i_type(imm: i32, rs1: u32, f3: u32, rd: u32, op: u32, w: u32)
    by (bit_vector)
    requires
        rs1 < 32,
        rd < 32,
        f3 < 8,
        op < 128,
        -2048 <= imm <= 2047,
        w == (((imm as u32) & 0xfffu32) << 20u32) | (rs1 << 15u32) | (f3 << 12u32) | (rd << 7u32)
            | op,
    ensures
        w & 0x7fu32 == op,
        (w >> 7u32) & 0x1fu32 == rd,
        (w >> 12u32) & 0x7u32 == f3,
        (w >> 15u32) & 0x1fu32 == rs1,
        (w as i32) >> 20u32 == imm,
{
}

proof fn bv_i_type_back(w: u32)
    by (bit_vector)
    ensures
        ((((w as i32) >> 20u32) as u32 & 0xfffu32) << 20u32) | (((w >> 15u32) & 0x1fu32)
            << 15u32) | (((w >> 12u32) & 0x7u32) << 12u32) | (((w >> 7u32) & 0x1fu32) << 7u32) | (w
            & 0x7fu32) == w,
        -2048 <= (w as i32) >> 20u32 <= 2047,
{
}

proof fn bv_r_type(f7: u32, rs2: u32, rs1: u32, f3: u32, rd: u32, w: u32)
    by (bit_vector)
    requires
        f7 < 128,
        rs2 < 32,
        rs1 < 32,
        rd < 32,
        f3 < 8,
        w == (f7 << 25u32) | (rs2 << 20u32) | (rs1 << 15u32) | (f3 << 12u32) | (rd << 7u32)
            | 0b0110011u32,
    ensures
        w & 0x7fu32 == 0b0110011u32,
        (w >> 7u32) & 0x1fu32 == rd,
        (w >> 12u32) & 0x7u32 == f3,
        (w >> 15u32) & 0x1fu32 == rs1,
        (w >> 20u32) & 0x1fu32 == rs2,
        w >> 25u32 == f7,
{
}

proof fn bv_r_type_back(w: u32)
    by (bit_vector)
    requires
        w & 0x7fu32 == 0b0110011u32,
    ensures
        ((w >> 25u32) << 25u32) | (((w >> 20u32) & 0x1fu32) << 20u32) | (((w >> 15u32) & 0x1fu32)
            << 15u32) | (((w >> 12u32) & 0x7u32) << 12u32) | (((w >> 7u32) & 0x1fu32) << 7u32)
            | 0b0110011u32 == w,
{
}

proof fn bv_s_type(imm: i32, rs2: u32, rs1: u32, w: u32)
    by (bit_vector)
    requires
        rs2 < 32,
        rs1 < 32,
        -2048 <= imm <= 2047,
        w == ((((imm as u32) & 0xfffu32) >> 5u32) << 25u32) | (rs2 << 20u32) | (rs1 << 15u32) | (
        0b010u32 << 12u32) | ((((imm as u32) & 0xfffu32) & 0x1fu32) << 7u32) | 0b0100011u32,
    ensures
        w & 0x7fu32 == 0b0100011u32,
        (w >> 12u32) & 0x7u32 == 0b010u32,
        (w >> 15u32) & 0x1fu32 == rs1,
        (w >> 20u32) & 0x1fu32 == rs2,
        (((w as i32) >> 25u32) << 5u32) | (((w >> 7u32) & 0x1fu32) as i32) == imm,
{
}

proof fn bv_s_type_back(w: u32)
    by (bit_vector)
    requires
        w & 0x7fu32 == 0b0100011u32,
        (w >> 12u32) & 0x7u32 == 0b010u32,
    ensures
        ({
            let imm = (((w as i32) >> 25u32) << 5u32) | (((w >> 7u32) & 0x1fu32) as i32);
            &&& ((((imm as u32) & 0xfffu32) >> 5u32) << 25u32) | (((w >> 20u32) & 0x1fu32)
                << 20u32) | (((w >> 15u32) & 0x1fu32) << 15u32) | (0b010u32 << 12u32) | ((((imm
                as u32) & 0xfffu32) & 0x1fu32) << 7u32) | 0b0100011u32 == w
            &&& -2048 <= imm <= 2047
        }),
{
}

proof fn bv_b_type(offset: i32, rs2: u32, rs1: u32, f3: u32, w: u32)
    by (bit_vector)
    requires
        rs2 < 32,
        rs1 < 32,
        f3 < 8,
        offset & 1 == 0,
        -4096 <= offset <= 4094,
        w == ((((offset as u32) & 0x1fffu32) >> 12u32 & 1u32) << 31u32) | (((((offset as u32)
            & 0x1fffu32) >> 5u32) & 0x3fu32) << 25u32) | (rs2 << 20u32) | (rs1 << 15u32) | (f3
            << 12u32) | (((((offset as u32) & 0x1fffu32) >> 1u32) & 0xfu32) << 8u32) | (((((offset
            as u32) & 0x1fffu32) >> 11u32) & 1u32) << 7u32) | 0b1100011u32,
    ensures
        w & 0x7fu32 == 0b1100011u32,
        (w >> 12u32) & 0x7u32 == f3,
        (w >> 15u32) & 0x1fu32 == rs1,
        (w >> 20u32) & 0x1fu32 == rs2,
        (((w as i32) >> 31u32) << 12u32) | ((((w >> 7u32) & 1u32) as i32) << 11u32) | ((((w
            >> 25u32) & 0x3fu32) as i32) << 5u32) | ((((w >> 8u32) & 0xfu32) as i32) << 1u32)
            == offset,
{
}

proof fn bv_b_type_back(w: u32)
    by (bit_vector)
    requires
        w & 0x7fu32 == 0b1100011u32,
    ensures
        ({
            let offset = (((w as i32) >> 31u32) << 12u32) | ((((w >> 7u32) & 1u32) as i32)
                << 11u32) | ((((w >> 25u32) & 0x3fu32) as i32) << 5u32) | ((((w >> 8u32) & 0xfu32)
                as i32) << 1u32);
            &&& ((((offset as u32) & 0x1fffu32) >> 12u32 & 1u32) << 31u32) | (((((offset as u32)
                & 0x1fffu32) >> 5u32) & 0x3fu32) << 25u32) | (((w >> 20u32) & 0x1fu32) << 20u32)
                | (((w >> 15u32) & 0x1fu32) << 15u32) | (((w >> 12u32) & 0x7u32) << 12u32) | (((((
            offset as u32) & 0x1fffu32) >> 1u32) & 0xfu32) << 8u32) | (((((offset as u32)
                & 0x1fffu32) >> 11u32) & 1u32) << 7u32) | 0b1100011u32 == w
            &&& offset & 1 == 0
            &&& -4096 <= offset <= 4094
        }),
{
}

proof fn bv_j_type(offset: i32, rd: u32, w: u32)
    by (bit_vector)
    requires
        rd < 32,
        offset & 1 == 0,
        -0x100000 <= offset < 0x100000,
        w == (((((offset as u32) & 0x1fffffu32) >> 20u32) & 1u32) << 31u32) | (((((offset as u32)
            & 0x1fffffu32) >> 1u32) & 0x3ffu32) << 21u32) | (((((offset as u32) & 0x1fffffu32)
            >> 11u32) & 1u32) << 20u32) | (((((offset as u32) & 0x1fffffu32) >> 12u32) & 0xffu32)
            << 12u32) | (rd << 7u32) | 0b1101111u32,
    ensures
        w & 0x7fu32 == 0b1101111u32,
        (w >> 7u32) & 0x1fu32 == rd,
        (((w as i32) >> 31u32) << 20u32) | ((((w >> 12u32) & 0xffu32) as i32) << 12u32) | ((((w
            >> 20u32) & 1u32) as i32) << 11u32) | ((((w >> 21u32) & 0x3ffu32) as i32) << 1u32)
            == offset,
{
}

proof fn bv_j_type_back(w: u32)
    by (bit_vector)
    requires
        w & 0x7fu32 == 0b1101111u32,
    ensures
        ({
            let offset = (((w as i32) >> 31u32) << 20u32) | ((((w >> 12u32) & 0xffu32) as i32)
                << 12u32) | ((((w >> 20u32) & 1u32) as i32) << 11u32) | ((((w >> 21u32) & 0x3ffu32)
                as i32) << 1u32);
            &&& (((((offset as u32) & 0x1fffffu32) >> 20u32) & 1u32) << 31u32) | (((((offset
                as u32) & 0x1fffffu32) >> 1u32) & 0x3ffu32) << 21u32) | (((((offset as u32)
                & 0x1fffffu32) >> 11u32) & 1u32) << 20u32) | (((((offset as u32) & 0x1fffffu32)
                >> 12u32) & 0xffu32) << 12u32) | (((w >> 7u32) & 0x1fu32) << 7u32) | 0b1101111u32
                == w
            &&& offset & 1 == 0
            &&& -0x100000 <= offset < 0x100000
        }),
{
}

proof fn bv_field_bounds(w: u32)
    by (bit_vector)
    ensures
        (w >> 7u32) & 0x1fu32 < 32,
        (w >> 15u32) & 0x1fu32 < 32,
        (w >> 20u32) & 0x1fu32 < 32,
        (w >> 12u32) & 0x7u32 < 8,
{
}

proof fn bv_even(x: i32)
    by (bit_vector)
    ensures
        (x & 1 == 0) == (x % 2 == 0),
{
}

/// Decoding the word of an instruction whose fields fit gives back that
/// same instruction.
pub proof fn lemma_decode_encode(instr: Instr)
    requires
        fits_fields(instr),
    ensures
        decoding(encoding(instr)) == Some(instr),
{
    let w = encoding(instr);
    bv_field_bounds(w);
    match instr {
        Instr::Lui { rd, imm } => {
            bv_u_type(imm, rd as u32, w);
        },
        Instr::Addi { rd, rs1, imm } => {
            bv_i_type(imm, rs1 as u32, 0, rd as u32, OP_IMM, w);
        },
        Instr::Sltiu { rd, rs1, imm } => {
            bv_i_type(imm, rs1 as u32, 3, rd as u32, OP_IMM, w);
        },
        Instr::Xori { rd, rs1, imm } => {
            bv_i_type(imm, rs1 as u32, 4, rd as u32, OP_IMM, w);
        },
        Instr::Lw { rd, rs1, imm } => {
            bv_i_type(imm, rs1 as u32, 2, rd as u32, OP_LOAD, w);
        },
        Instr::Add { rd, rs1, rs2 } => {
            bv_r_type(0, rs2 as u32, rs1 as u32, 0, rd as u32, w);
        },
        Instr::Sub { rd, rs1, rs2 } => {
            bv_r_type(32, rs2 as u32, rs1 as u32, 0, rd as u32, w);
        },
        Instr::Slt { rd, rs1, rs2 } => {
            bv_r_type(0, rs2 as u32, rs1 as u32, 2, rd as u32, w);
        },
        Instr::Sltu { rd, rs1, rs2 } => {
            bv_r_type(0, rs2 as u32, rs1 as u32, 3, rd as u32, w);
        },
        Instr::Mul { rd, rs1, rs2 } => {
            bv_r_type(1, rs2 as u32, rs1 as u32, 0, rd as u32, w);
        },
        Instr::Div { rd, rs1, rs2 } => {
            bv_r_type(1, rs2 as u32, rs1 as u32, 4, rd as u32, w);
        },
        Instr::Rem { rd, rs1, rs2 } => {
            bv_r_type(1, rs2 as u32, rs1 as u32, 6, rd as u32, w);
        },
        Instr::Sw { rs1, rs2, imm } => {
            bv_s_type(imm, rs2 as u32, rs1 as u32, w);
        },
        Instr::Beq { rs1, rs2, offset } => {
            bv_even(offset);
            bv_b_type(offset, rs2 as u32, rs1 as u32, 0, w)
        },
        Instr::Bne { rs1, rs2, offset } => {
            bv_even(offset);
            bv_b_type(offset, rs2 as u32, rs1 as u32, 1, w)
        },
        Instr::Blt { rs1, rs2, offset } => {
            bv_even(offset);
            bv_b_type(offset, rs2 as u32, rs1 as u32, 4, w)
        },
        Instr::Bge { rs1, rs2, offset } => {
            bv_even(offset);
            bv_b_type(offset, rs2 as u32, rs1 as u32, 5, w)
        },
        Instr::Jal { rd, offset } => {
            bv_even(offset);
            bv_j_type(offset, rd as u32, w)
        },
        Instr::Ecall => {
            assert(0b1110011u32 & 0x7fu32 == 0b1110011u32) by (bit_vector);
        },
    }
}

/// A word that decodes to an instruction is exactly that instruction's
/// encoding, and the instruction's fields fit: the decoder reads every bit
/// of the word.
pub proof fn lemma_encode_decode(word: u32)
    requires
        decoding(word) is Some,
    ensures
        encoding(decoding(word).unwrap()) == word,
        fits_fields(decoding(word).unwrap()),
{
    let opcode = word & 0x7fu32;
    let instr = decoding(word).unwrap();
    bv_field_bounds(word);
    if opcode == OP_LUI {
        bv_u_type_back(word);
    } else if opcode == OP_IMM || opcode == OP_LOAD {
        bv_i_type_back(word);
    } else if opcode == OP_REG {
        bv_r_type_back(word);
    } else if opcode == OP_STORE {
        bv_s_type_back(word);
    } else if opcode == OP_BRANCH {
        bv_b_type_back(word);
        bv_even(b_imm(word));
    } else if opcode == OP_JAL {
        bv_j_type_back(word);
        bv_even(j_imm(word));
    }
}

} // verus!
