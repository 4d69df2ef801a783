use engine::assembler::{decode, encode};
use engine::ir::Instr;
use engine::ir::Instr::{
    Add, Addi, Beq, Bge, Blt, Bne, Div, Ecall, Jal, Lui, Lw, Mul, Rem, Slt, Sltiu, Sltu, Sub, Sw, Xori,
};

/// Encodings cross-checked against the RISC-V spec / riscv-tests.
#[test]
fn known_good_words() {
    assert_eq!(encode(Addi { rd: 5, rs1: 0, imm: 7 }), 0x00700293);
    assert_eq!(encode(Add { rd: 5, rs1: 6, rs2: 7 }), 0x007302B3);
    assert_eq!(encode(Lui { rd: 3, imm: 1 }), 0x000011B7);
    assert_eq!(encode(Lw { rd: 5, rs1: 3, imm: 8 }), 0x0081A283);
    assert_eq!(encode(Sw { rs1: 3, rs2: 5, imm: 8 }), 0x0051A423);
    assert_eq!(encode(Beq { rs1: 5, rs2: 0, offset: 8 }), 0x00028463);
    assert_eq!(encode(Jal { rd: 0, offset: 8 }), 0x0080006F);
    assert_eq!(encode(Ecall), 0x00000073);
}

#[test]
fn encode_decode_roundtrip() {
    let cases: Vec<Instr> = vec![
        Lui { rd: 3, imm: 0x12345 },
        Lui { rd: 3, imm: 0xfffff }, // negative %hi after patching
        Addi { rd: 5, rs1: 0, imm: -2048 },
        Addi { rd: 5, rs1: 0, imm: 2047 },
        Sltiu { rd: 5, rs1: 6, imm: 1 },
        Xori { rd: 5, rs1: 5, imm: 1 },
        Add { rd: 5, rs1: 6, rs2: 7 },
        Sub { rd: 31, rs1: 30, rs2: 29 },
        Mul { rd: 5, rs1: 6, rs2: 7 },
        Div { rd: 5, rs1: 6, rs2: 7 },
        Rem { rd: 5, rs1: 6, rs2: 7 },
        Slt { rd: 5, rs1: 6, rs2: 7 },
        Sltu { rd: 5, rs1: 0, rs2: 7 },
        Lw { rd: 5, rs1: 3, imm: -4 },
        Sw { rs1: 3, rs2: 5, imm: -4 },
        Beq { rs1: 5, rs2: 0, offset: -8 },
        Bne { rs1: 5, rs2: 6, offset: 4094 },
        Blt { rs1: 5, rs2: 6, offset: -4096 },
        Bge { rs1: 5, rs2: 6, offset: 12 },
        Jal { rd: 0, offset: -2048 },
        Jal { rd: 1, offset: 1048574 },
        Ecall,
    ];
    for instr in cases {
        let word = encode(instr);
        let back = decode(word);
        assert_eq!(back, Some(instr), "roundtrip failed for {instr:?} (word {word:#010x})");
    }
}

#[test]
fn garbage_decodes_to_none() {
    assert_eq!(decode(0x00000000), None);
    assert_eq!(decode(0xffffffff), None);
}
