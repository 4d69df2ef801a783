//! The CPU simulator: a step-able RV32IM core.
//!
//! Every `step()` is a real fetch, decode, execute cycle. Decode operates on
//! the actual bytes in memory, not on a cached instruction list.
use vstd::prelude::*;
use crate::assembler::{decode, decoding, fits_fields, lemma_encode_decode};
use crate::fmt::{dec_text, hex_text, push_dec, push_hex};
use crate::ir::{Instr, SYSCALL_EXIT, SYSCALL_PRINT_INT};

verus! {

/// Size of the simulated memory: 64 KiB.
pub const MEM_SIZE: usize = 65536;

#[derive(Debug, Clone)]
pub struct Cpu {
    /// x0..x31. x0 is hardwired to zero (writes are discarded).
    pub regs: [i32; 32],
    pub pc: u32,
    pub mem: Vec<u8>,
    pub halted: bool,
}

#[derive(Clone, Copy, Debug, PartialEq, Eq, Structural)]
pub struct RegWrite {
    pub reg: u8,
    pub old: i32,
    pub new: i32,
}

#[derive(Clone, Copy, Debug, PartialEq, Eq, Structural)]
pub struct MemWrite {
    pub addr: u32,
    pub old: i32,
    pub new: i32,
}

/// What changed during one cycle.
#[derive(Debug, Clone)]
pub struct StepDelta {
    pub pc_before: u32,
    pub pc_after: u32,
    /// Index into the program's instruction list (`pc_before / 4`).
    pub instr_index: u32,
    pub reg_write: Option<RegWrite>,
    pub mem_write: Option<MemWrite>,
    /// Text emitted by a print ecall this cycle.
    pub output: Option<String>,
    pub halted: bool,
    /// Set when execution faulted (bad fetch, undecodable word, ...).
    pub error: Option<String>,
}

/// The mathematical state of the machine.
#[verifier::ext_equal]
pub struct Machine {
    pub regs: Seq<i32>,
    pub pc: u32,
    pub mem: Seq<u8>,
    pub halted: bool,
}

/// The mathematical content of a `StepDelta`.
#[verifier::ext_equal]
pub struct Delta {
    pub pc_before: u32,
    pub pc_after: u32,
    pub instr_index: u32,
    pub reg_write: Option<RegWrite>,
    pub mem_write: Option<MemWrite>,
    pub output: Option<Seq<char>>,
    pub halted: bool,
    pub error: Option<Seq<char>>,
}

pub open spec fn text_of(o: Option<String>) -> Option<Seq<char>> {
    match o {
        Some(s) => Some(s@),
        None => None,
    }
}

impl View for Cpu {
    type V = Machine;

    open spec fn view(&self) -> Machine {
        Machine { regs: self.regs@, pc: self.pc, mem: self.mem@, halted: self.halted }
    }
}

impl View for StepDelta {
    type V = Delta;

    open spec fn view(&self) -> Delta {
        Delta {
            pc_before: self.pc_before,
            pc_after: self.pc_after,
            instr_index: self.instr_index,
            reg_write: self.reg_write,
            mem_write: self.mem_write,
            output: text_of(self.output),
            halted: self.halted,
            error: text_of(self.error),
        }
    }
}

// ---- memory ---------------------------------------------------------------

/// The little-endian 32-bit word stored at byte address `a`.
pub open spec fn word_at(mem: Seq<u8>, a: int) -> i32 {
    ((mem[a] as u32) | ((mem[a + 1] as u32) << 8u32) | ((mem[a + 2] as u32) << 16u32) | ((mem[a
        + 3] as u32) << 24u32)) as i32
}

/// The word at `addr`, or `None` when the four bytes are not all in memory.
pub open spec fn read_word_at(mem: Seq<u8>, addr: u32) -> Option<i32> {
    if addr + 4 > mem.len() {
        None
    } else {
        Some(word_at(mem, addr as int))
    }
}

/// Memory after storing `v` little-endian at byte address `a`.
pub open spec fn write_word_at(mem: Seq<u8>, a: int, v: i32) -> Seq<u8> {
    mem.update(a, ((v as u32) & 0xffu32) as u8).update(a + 1, (((v as u32) >> 8u32) & 0xffu32) as u8).update(
        a + 2,
        (((v as u32) >> 16u32) & 0xffu32) as u8,
    ).update(a + 3, (((v as u32) >> 24u32) & 0xffu32) as u8)
}

// ---- RISC-V arithmetic ------------------------------------------------------

pub open spec fn abs_int(a: int) -> int {
    if a < 0 {
        -a
    } else {
        a
    }
}

/// Signed division rounding toward zero.
pub open spec fn trunc_quot(a: int, b: int) -> int {
    if (a < 0) != (b < 0) {
        -(abs_int(a) / abs_int(b))
    } else {
        abs_int(a) / abs_int(b)
    }
}

/// Remainder of `trunc_quot`; it has the sign of the dividend.
pub open spec fn trunc_rem(a: int, b: int) -> int {
    if a < 0 {
        -(abs_int(a) % abs_int(b))
    } else {
        abs_int(a) % abs_int(b)
    }
}

/// `div`: x / 0 = -1, and the one overflowing quotient wraps.
pub open spec fn div_value(a: i32, b: i32) -> i32 {
    if b == 0 {
        -1i32
    } else {
        trunc_quot(a as int, b as int) as i32
    }
}

/// `rem`: x % 0 = x, and the overflowing case gives 0.
pub open spec fn rem_value(a: i32, b: i32) -> i32 {
    if b == 0 {
        a
    } else {
        trunc_rem(a as int, b as int) as i32
    }
}

fn div_riscv(a: i32, b: i32) -> (r: i32)
    ensures
        r == div_value(a, b),
{
    if b == 0 {
        return -1;
    }
    let ua: u64 = if a < 0 {
        (0i64 - a as i64) as u64
    } else {
        a as u64
    };
    let ub: u64 = if b < 0 {
        (0i64 - b as i64) as u64
    } else {
        b as u64
    };
    let q: u64 = ua / ub;
    assert(q <= ua);
    let sq: i64 = if (a < 0) != (b < 0) {
        0i64 - q as i64
    } else {
        q as i64
    };
    sq as i32
}

fn rem_riscv(a: i32, b: i32) -> (r: i32)
    ensures
        r == rem_value(a, b),
{
    if b == 0 {
        return a;
    }
    let ua: u64 = if a < 0 {
        (0i64 - a as i64) as u64
    } else {
        a as u64
    };
    let ub: u64 = if b < 0 {
        (0i64 - b as i64) as u64
    } else {
        b as u64
    };
    let m: u64 = ua % ub;
    let sm: i64 = if a < 0 {
        0i64 - m as i64
    } else {
        m as i64
    };
    sm as i32
}

// ---- the cycle ------------------------------------------------------------

pub open spec fn fetch_fault_text(pc: u32) -> Seq<char> {
    "fetch out of bounds at "@ + hex_text(pc as nat, 4)
}

pub open spec fn misaligned_text(pc: u32) -> Seq<char> {
    "misaligned PC "@ + hex_text(pc as nat, 4)
}

pub open spec fn decode_fault_text(word: u32, pc: u32) -> Seq<char> {
    "cannot decode word "@ + hex_text(word as nat, 8) + " at "@ + hex_text(pc as nat, 4)
}

pub open spec fn load_fault_text(addr: u32) -> Seq<char> {
    "load out of bounds at "@ + hex_text(addr as nat, 4)
}

pub open spec fn store_fault_text(addr: u32) -> Seq<char> {
    "store out of bounds at "@ + hex_text(addr as nat, 4)
}

pub open spec fn ecall_fault_text(call: i32) -> Seq<char> {
    "unknown ecall number "@ + dec_text(call as int)
}

/// What a print ecall emits: the value in decimal and a newline.
pub open spec fn print_text(v: i32) -> Seq<char> {
    dec_text(v as int) + seq!['\n']
}

/// The delta a cycle starts from: nothing changed yet.
pub open spec fn fresh_delta(s: Machine) -> Delta {
    Delta {
        pc_before: s.pc,
        pc_after: s.pc,
        instr_index: s.pc / 4,
        reg_write: None,
        mem_write: None,
        output: None,
        halted: s.halted,
        error: None,
    }
}

/// A fault halts the machine and reports `msg`; nothing else changes.
pub open spec fn fault_outcome(s: Machine, d: Delta, msg: Seq<char>) -> (Machine, Delta) {
    (Machine { halted: true, ..s }, Delta { halted: true, error: Some(msg), ..d })
}

/// Writing `v` to register `rd`: discarded for x0, recorded otherwise.
pub open spec fn reg_outcome(s: Machine, d: Delta, rd: u8, v: i32) -> (Machine, Delta) {
    if rd == 0 {
        (s, d)
    } else {
        (
            Machine { regs: s.regs.update(rd as int, v), ..s },
            Delta { reg_write: Some(RegWrite { reg: rd, old: s.regs[rd as int], new: v }), ..d },
        )
    }
}

/// The cycle ends by moving the PC to `next`.
pub open spec fn jump_outcome(sd: (Machine, Delta), next: u32) -> (Machine, Delta) {
    (Machine { pc: next, ..sd.0 }, Delta { pc_after: next, ..sd.1 })
}

pub open spec fn set_if(c: bool) -> i32 {
    if c {
        1
    } else {
        0
    }
}

/// Executing a decoded instruction.
pub open spec fn execute_outcome(s: Machine, d: Delta, instr: Instr) -> (Machine, Delta) {
    let pc = s.pc;
    let seq_pc = pc.wrapping_add(4);
    let r = s.regs;
    match instr {
        Instr::Lui { rd, imm } => jump_outcome(reg_outcome(s, d, rd, imm << 12u32), seq_pc),
        Instr::Addi { rd, rs1, imm } => jump_outcome(
            reg_outcome(s, d, rd, r[rs1 as int].wrapping_add(imm)),
            seq_pc,
        ),
        Instr::Sltiu { rd, rs1, imm } => jump_outcome(
            reg_outcome(s, d, rd, set_if((r[rs1 as int] as u32) < (imm as u32))),
            seq_pc,
        ),
        Instr::Xori { rd, rs1, imm } => jump_outcome(
            reg_outcome(s, d, rd, r[rs1 as int] ^ imm),
            seq_pc,
        ),
        Instr::Add { rd, rs1, rs2 } => jump_outcome(
            reg_outcome(s, d, rd, r[rs1 as int].wrapping_add(r[rs2 as int])),
            seq_pc,
        ),
        Instr::Sub { rd, rs1, rs2 } => jump_outcome(
            reg_outcome(s, d, rd, r[rs1 as int].wrapping_sub(r[rs2 as int])),
            seq_pc,
        ),
        Instr::Mul { rd, rs1, rs2 } => jump_outcome(
            reg_outcome(s, d, rd, r[rs1 as int].wrapping_mul(r[rs2 as int])),
            seq_pc,
        ),
        Instr::Div { rd, rs1, rs2 } => jump_outcome(
            reg_outcome(s, d, rd, div_value(r[rs1 as int], r[rs2 as int])),
            seq_pc,
        ),
        Instr::Rem { rd, rs1, rs2 } => jump_outcome(
            reg_outcome(s, d, rd, rem_value(r[rs1 as int], r[rs2 as int])),
            seq_pc,
        ),
        Instr::Slt { rd, rs1, rs2 } => jump_outcome(
            reg_outcome(s, d, rd, set_if(r[rs1 as int] < r[rs2 as int])),
            seq_pc,
        ),
        Instr::Sltu { rd, rs1, rs2 } => jump_outcome(
            reg_outcome(s, d, rd, set_if((r[rs1 as int] as u32) < (r[rs2 as int] as u32))),
            seq_pc,
        ),
        Instr::Lw { rd, rs1, imm } => {
            let addr = r[rs1 as int].wrapping_add(imm) as u32;
            match read_word_at(s.mem, addr) {
                Some(v) => jump_outcome(reg_outcome(s, d, rd, v), seq_pc),
                None => fault_outcome(s, d, load_fault_text(addr)),
            }
        },
        Instr::Sw { rs1, rs2, imm } => {
            let addr = r[rs1 as int].wrapping_add(imm) as u32;
            match read_word_at(s.mem, addr) {
                Some(old) => jump_outcome(
                    (
                        Machine { mem: write_word_at(s.mem, addr as int, r[rs2 as int]), ..s },
                        Delta {
                            mem_write: Some(MemWrite { addr, old, new: r[rs2 as int] }),
                            ..d
                        },
                    ),
                    seq_pc,
                ),
                None => fault_outcome(s, d, store_fault_text(addr)),
            }
        },
        Instr::Beq { rs1, rs2, offset } => jump_outcome(
            (s, d),
            if r[rs1 as int] == r[rs2 as int] {
                pc.wrapping_add(offset as u32)
            } else {
                seq_pc
            },
        ),
        Instr::Bne { rs1, rs2, offset } => jump_outcome(
            (s, d),
            if r[rs1 as int] != r[rs2 as int] {
                pc.wrapping_add(offset as u32)
            } else {
                seq_pc
            },
        ),
        Instr::Blt { rs1, rs2, offset } => jump_outcome(
            (s, d),
            if r[rs1 as int] < r[rs2 as int] {
                pc.wrapping_add(offset as u32)
            } else {
                seq_pc
            },
        ),
        Instr::Bge { rs1, rs2, offset } => jump_outcome(
            (s, d),
            if r[rs1 as int] >= r[rs2 as int] {
                pc.wrapping_add(offset as u32)
            } else {
                seq_pc
            },
        ),
        Instr::Jal { rd, offset } => jump_outcome(
            reg_outcome(s, d, rd, seq_pc as i32),
            pc.wrapping_add(offset as u32),
        ),
        Instr::Ecall => {
            let call = r[17];
            if call == SYSCALL_PRINT_INT {
                jump_outcome((s, Delta { output: Some(print_text(r[10])), ..d }), seq_pc)
            } else if call == SYSCALL_EXIT {
                jump_outcome((Machine { halted: true, ..s }, Delta { halted: true, ..d }), seq_pc)
            } else {
                fault_outcome(s, d, ecall_fault_text(call))
            }
        },
    }
}

/// One fetch-decode-execute cycle of the machine `s`: the state after it and
/// the delta it reports. A halted machine does nothing.
pub open spec fn step_outcome(s: Machine) -> (Machine, Delta) {
    let d = fresh_delta(s);
    if s.halted {
        (s, d)
    } else {
        match read_word_at(s.mem, s.pc) {
            None => fault_outcome(s, d, fetch_fault_text(s.pc)),
            Some(w) => if s.pc % 4 != 0 {
                fault_outcome(s, d, misaligned_text(s.pc))
            } else {
                match decoding(w as u32) {
                    None => fault_outcome(s, d, decode_fault_text(w as u32, s.pc)),
                    Some(instr) => execute_outcome(s, d, instr),
                }
            },
        }
    }
}

/// The memory image of a freshly loaded program: the program bytes at
/// address 0, zeros up to `MEM_SIZE`.
pub open spec fn loaded_memory(program: Seq<u8>) -> Seq<u8> {
    Seq::new(MEM_SIZE as nat, |i: int| if i < program.len() { program[i] } else { 0u8 })
}

/// The machine right after loading `program`.
pub open spec fn boot_state(program: Seq<u8>) -> Machine {
    Machine {
        regs: Seq::new(32, |i: int| 0i32),
        pc: 0,
        mem: loaded_memory(program),
        halted: false,
    }
}

impl Cpu {
    /// A fresh CPU with `program` bytes loaded at address 0.
    pub fn new(program: &[u8]) -> (cpu: Cpu)
        requires
            program.len() <= MEM_SIZE,
        ensures
            cpu@ == boot_state(program@),
    {
        let mut mem: Vec<u8> = Vec::with_capacity(MEM_SIZE);
        let mut i: usize = 0;
        while i < MEM_SIZE
            invariant
                i <= MEM_SIZE,
                program.len() <= MEM_SIZE,
                mem@.len() == i,
                forall|j: int| 0 <= j < i ==> mem@[j] == loaded_memory(program@)[j],
            decreases MEM_SIZE - i,
        {
            if i < program.len() {
                mem.push(program[i]);
            } else {
                mem.push(0u8);
            }
            i = i + 1;
        }
        let cpu = Cpu { regs: [0i32; 32], pc: 0, mem, halted: false };
        assert(cpu@.mem =~= loaded_memory(program@));
        assert(cpu@.regs =~= Seq::new(32, |i: int| 0i32));
        cpu
    }

    /// The little-endian word at `addr`, if all four bytes are in memory.
    pub fn read_word(&self, addr: u32) -> (res: Option<i32>)
        ensures
            res == read_word_at(self.mem@, addr),
    {
        let a = addr as usize;
        if self.mem.len() < 4 || a > self.mem.len() - 4 {
            return None;
        }
        let w: u32 = (self.mem[a] as u32) | ((self.mem[a + 1] as u32) << 8u32) | ((self.mem[a
            + 2] as u32) << 16u32) | ((self.mem[a + 3] as u32) << 24u32);
        Some(w as i32)
    }

    /// Store `value` little-endian at `addr`; `false` (and no change) when
    /// the four bytes are not all in memory.
    fn write_word(&mut self, addr: u32, value: i32) -> (ok: bool)
        ensures
            ok == (read_word_at(old(self).mem@, addr) is Some),
            ok ==> final(self)@ == (Machine {
                mem: write_word_at(old(self).mem@, addr as int, value),
                ..old(self)@
            }),
            !ok ==> final(self)@ == old(self)@,
    {
        let a = addr as usize;
        if self.mem.len() < 4 || a > self.mem.len() - 4 {
            return false;
        }
        let v = value as u32;
        self.mem.set(a, (v & 0xffu32) as u8);
        self.mem.set(a + 1, ((v >> 8u32) & 0xffu32) as u8);
        self.mem.set(a + 2, ((v >> 16u32) & 0xffu32) as u8);
        self.mem.set(a + 3, ((v >> 24u32) & 0xffu32) as u8);
        assert(self.mem@ =~= write_word_at(old(self).mem@, addr as int, value));
        true
    }

    fn reg(&self, r: u8) -> (v: i32)
        requires
            r < 32,
        ensures
            v == self.regs@[r as int],
    {
        self.regs[r as usize]
    }

    fn write_reg(&mut self, delta: &mut StepDelta, reg: u8, value: i32)
        requires
            reg < 32,
        ensures
            (final(self)@, final(delta)@) == reg_outcome(old(self)@, old(delta)@, reg, value),
    {
        if reg == 0 {
            return;  // x0 is hardwired to zero
        }
        let old_value = self.regs[reg as usize];
        self.regs[reg as usize] = value;
        delta.reg_write = Some(RegWrite { reg, old: old_value, new: value });
        assert(self@.regs =~= old(self)@.regs.update(reg as int, value));
    }

    fn fault(&mut self, delta: StepDelta, message: String) -> (res: StepDelta)
        ensures
            (final(self)@, res@) == fault_outcome(old(self)@, delta@, message@),
    {
        let mut delta = delta;
        self.halted = true;
        delta.halted = true;
        delta.error = Some(message);
        delta
    }

    /// One fetch-decode-execute cycle.
    pub fn step(&mut self) -> (delta: StepDelta)
        ensures
            (final(self)@, delta@) == step_outcome(old(self)@),
    {
        let pc = self.pc;
        let mut delta = StepDelta {
            pc_before: pc,
            pc_after: pc,
            instr_index: pc / 4,
            reg_write: None,
            mem_write: None,
            output: None,
            halted: self.halted,
            error: None,
        };
        if self.halted {
            return delta;
        }
        // FETCH: read 4 bytes from memory at the program counter.
        let word = match self.read_word(pc) {
            Some(w) => w as u32,
            None => {
                let mut m = String::new();
                m.append("fetch out of bounds at ");
                push_hex(&mut m, pc, 4);
                return self.fault(delta, m);
            },
        };
        if pc % 4 != 0 {
            let mut m = String::new();
            m.append("misaligned PC ");
            push_hex(&mut m, pc, 4);
            return self.fault(delta, m);
        }
        // DECODE: parse the bits back into an instruction.
        let instr = match decode(word) {
            Some(i) => i,
            None => {
                let mut m = String::new();
                m.append("cannot decode word ");
                push_hex(&mut m, word, 8);
                m.append(" at ");
                push_hex(&mut m, pc, 4);
                return self.fault(delta, m);
            },
        };
        proof {
            lemma_encode_decode(word);
        }
        let ghost s0 = self@;
        let ghost d0 = delta@;
        // EXECUTE: apply the effect.
        let mut next_pc = pc.wrapping_add(4);
        match instr {
            Instr::Lui { rd, imm } => {
                self.write_reg(&mut delta, rd, imm << 12u32);
            },
            Instr::Addi { rd, rs1, imm } => {
                let v = self.reg(rs1).wrapping_add(imm);
                self.write_reg(&mut delta, rd, v);
            },
            Instr::Sltiu { rd, rs1, imm } => {
                let v = if (self.reg(rs1) as u32) < (imm as u32) {
                    1
                } else {
                    0
                };
                self.write_reg(&mut delta, rd, v);
            },
            Instr::Xori { rd, rs1, imm } => {
                let v = self.reg(rs1) ^ imm;
                self.write_reg(&mut delta, rd, v);
            },
            Instr::Add { rd, rs1, rs2 } => {
                let v = self.reg(rs1).wrapping_add(self.reg(rs2));
                self.write_reg(&mut delta, rd, v);
            },
            Instr::Sub { rd, rs1, rs2 } => {
                let v = self.reg(rs1).wrapping_sub(self.reg(rs2));
                self.write_reg(&mut delta, rd, v);
            },
            Instr::Mul { rd, rs1, rs2 } => {
                let v = self.reg(rs1).wrapping_mul(self.reg(rs2));
                self.write_reg(&mut delta, rd, v);
            },
            Instr::Div { rd, rs1, rs2 } => {
                // RISC-V semantics: x/0 = -1, overflow wraps
                let v = div_riscv(self.reg(rs1), self.reg(rs2));
                self.write_reg(&mut delta, rd, v);
            },
            Instr::Rem { rd, rs1, rs2 } => {
                // RISC-V semantics: x%0 = x
                let v = rem_riscv(self.reg(rs1), self.reg(rs2));
                self.write_reg(&mut delta, rd, v);
            },
            Instr::Slt { rd, rs1, rs2 } => {
                let v = if self.reg(rs1) < self.reg(rs2) {
                    1
                } else {
                    0
                };
                self.write_reg(&mut delta, rd, v);
            },
            Instr::Sltu { rd, rs1, rs2 } => {
                let v = if (self.reg(rs1) as u32) < (self.reg(rs2) as u32) {
                    1
                } else {
                    0
                };
                self.write_reg(&mut delta, rd, v);
            },
            Instr::Lw { rd, rs1, imm } => {
                let addr = self.reg(rs1).wrapping_add(imm) as u32;
                match self.read_word(addr) {
                    Some(v) => self.write_reg(&mut delta, rd, v),
                    None => {
                        let mut m = String::new();
                        m.append("load out of bounds at ");
                        push_hex(&mut m, addr, 4);
                        return self.fault(delta, m);
                    },
                }
            },
            Instr::Sw { rs1, rs2, imm } => {
                let addr = self.reg(rs1).wrapping_add(imm) as u32;
                let old_value = match self.read_word(addr) {
                    Some(v) => v,
                    None => {
                        let mut m = String::new();
                        m.append("store out of bounds at ");
                        push_hex(&mut m, addr, 4);
                        return self.fault(delta, m);
                    },
                };
                let new_value = self.reg(rs2);
                self.write_word(addr, new_value);
                delta.mem_write = Some(MemWrite { addr, old: old_value, new: new_value });
            },
            Instr::Beq { rs1, rs2, offset } => {
                if self.reg(rs1) == self.reg(rs2) {
                    next_pc = pc.wrapping_add(offset as u32);
                }
            },
            Instr::Bne { rs1, rs2, offset } => {
                if self.reg(rs1) != self.reg(rs2) {
                    next_pc = pc.wrapping_add(offset as u32);
                }
            },
            Instr::Blt { rs1, rs2, offset } => {
                if self.reg(rs1) < self.reg(rs2) {
                    next_pc = pc.wrapping_add(offset as u32);
                }
            },
            Instr::Bge { rs1, rs2, offset } => {
                if self.reg(rs1) >= self.reg(rs2) {
                    next_pc = pc.wrapping_add(offset as u32);
                }
            },
            Instr::Jal { rd, offset } => {
                self.write_reg(&mut delta, rd, pc.wrapping_add(4) as i32);
                next_pc = pc.wrapping_add(offset as u32);
            },
            Instr::Ecall => {
                let call = self.regs[17];  // a7
                if call == SYSCALL_PRINT_INT {
                    let mut out = String::new();
                    push_dec(&mut out, self.regs[10]);  // a0
                    out.push('\n');
                    delta.output = Some(out);
                } else if call == SYSCALL_EXIT {
                    self.halted = true;
                    delta.halted = true;
                } else {
                    let mut m = String::new();
                    m.append("unknown ecall number ");
                    push_dec(&mut m, call);
                    return self.fault(delta, m);
                }
            },
        }
        self.pc = next_pc;
        delta.pc_after = next_pc;
        delta
    }
}

// ---- laws ----------------------------------------------------------------

proof fn bv_word_bytes(v: i32)
    by (bit_vector)
    ensures
        ((v as u32) & 0xffu32) < 256,
        (((v as u32) >> 8u32) & 0xffu32) < 256,
        (((v as u32) >> 16u32) & 0xffu32) < 256,
        (((v as u32) >> 24u32) & 0xffu32) < 256,
        (((v as u32) & 0xffu32) | ((((v as u32) >> 8u32) & 0xffu32) << 8u32) | ((((v as u32)
            >> 16u32) & 0xffu32) << 16u32) | ((((v as u32) >> 24u32) & 0xffu32) << 24u32)) as i32
            == v,
{
}

/// A load from the address of a store reads back the stored word.
pub proof fn lemma_store_then_load(mem: Seq<u8>, addr: u32, v: i32)
    requires
        read_word_at(mem, addr) is Some,
    ensures
        read_word_at(write_word_at(mem, addr as int, v), addr) == Some(v),
        write_word_at(mem, addr as int, v).len() == mem.len(),
{
    bv_word_bytes(v);
}

proof fn bv_bytes_word(b0: u32, b1: u32, b2: u32, b3: u32, w: u32)
    by (bit_vector)
    requires
        b0 < 256,
        b1 < 256,
        b2 < 256,
        b3 < 256,
        w == ((b0 | (b1 << 8u32) | (b2 << 16u32) | (b3 << 24u32)) as i32) as u32,
    ensures
        w & 0xffu32 == b0,
        (w >> 8u32) & 0xffu32 == b1,
        (w >> 16u32) & 0xffu32 == b2,
        (w >> 24u32) & 0xffu32 == b3,
{
}

/// Storing the word that was already there leaves memory as it was: a
/// recorded memory write can be undone from its `old` value.
pub proof fn lemma_store_old_word(mem: Seq<u8>, addr: u32, v: i32)
    requires
        read_word_at(mem, addr) is Some,
    ensures
        write_word_at(write_word_at(mem, addr as int, v), addr as int, word_at(mem, addr as int))
            == mem,
{
    let a = addr as int;
    let w = word_at(mem, a);
    bv_bytes_word(mem[a] as u32, mem[a + 1] as u32, mem[a + 2] as u32, mem[a + 3] as u32, w as u32);
    assert(write_word_at(write_word_at(mem, a, v), a, w) =~= mem);
}

/// The register file keeps 32 entries, memory keeps its size, and x0 reads
/// zero after a cycle whenever it read zero before.
pub proof fn lemma_step_keeps_shape(s: Machine)
    requires
        s.regs.len() == 32,
    ensures
        step_outcome(s).0.regs.len() == 32,
        step_outcome(s).0.mem.len() == s.mem.len(),
        s.regs[0] == 0 ==> step_outcome(s).0.regs[0] == 0,
{
    if !s.halted {
        if let Some(w) = read_word_at(s.mem, s.pc) {
            if decoding(w as u32) is Some {
                lemma_encode_decode(w as u32);
            }
        }
    }
}

/// A halted machine stays exactly as it is and reports a delta with no
/// effect.
pub proof fn lemma_halted_is_inert(s: Machine)
    requires
        s.halted,
    ensures
        step_outcome(s).0 == s,
        step_outcome(s).1 == fresh_delta(s),
        step_outcome(s).1.halted,
{
}

/// `d` reports the cycle from `s` to `t` exactly: the PC before and after,
/// the one register write with its old and new value, the one memory write
/// with its old and new word, and whether the machine is halted afterwards.
/// Everything the delta does not mention is unchanged.
pub open spec fn delta_reports(s: Machine, t: Machine, d: Delta) -> bool {
    &&& d.pc_before == s.pc
    &&& d.pc_after == t.pc
    &&& d.halted == t.halted
    &&& (d.reg_write matches Some(w) ==> w.reg != 0 && s.regs[w.reg as int] == w.old && t.regs
        == s.regs.update(w.reg as int, w.new))
    &&& (d.reg_write is None ==> t.regs == s.regs)
    &&& (d.mem_write matches Some(m) ==> read_word_at(s.mem, m.addr) == Some(m.old) && t.mem
        == write_word_at(s.mem, m.addr as int, m.new))
    &&& (d.mem_write is None ==> t.mem == s.mem)
}

/// Every cycle's delta reports it exactly.
pub proof fn lemma_delta_describes_step(s: Machine)
    ensures
        delta_reports(s, step_outcome(s).0, step_outcome(s).1),
{
}

/// Division by zero follows the hardware: `div` by zero gives -1, `rem` by
/// zero gives the dividend, and neither traps; the one overflowing quotient,
/// `i32::MIN / -1`, wraps to `i32::MIN` with remainder 0.
pub proof fn lemma_division_never_traps(s: Machine, d: Delta, rd: u8, rs1: u8, rs2: u8)
    requires
        0 < rd < 32,
        rs1 < 32,
        rs2 < 32,
        s.regs.len() == 32,
    ensures
        s.regs[rs2 as int] == 0 ==> {
            &&& execute_outcome(s, d, Instr::Div { rd, rs1, rs2 }).0.regs[rd as int] == -1
            &&& execute_outcome(s, d, Instr::Rem { rd, rs1, rs2 }).0.regs[rd as int] == s.regs[rs1 as int]
        },
        s.regs[rs1 as int] == i32::MIN && s.regs[rs2 as int] == -1 ==> {
            &&& execute_outcome(s, d, Instr::Div { rd, rs1, rs2 }).0.regs[rd as int] == i32::MIN
            &&& execute_outcome(s, d, Instr::Rem { rd, rs1, rs2 }).0.regs[rd as int] == 0
        },
        execute_outcome(s, d, Instr::Div { rd, rs1, rs2 }).0.halted == s.halted,
        execute_outcome(s, d, Instr::Div { rd, rs1, rs2 }).1.error == d.error,
        execute_outcome(s, d, Instr::Rem { rd, rs1, rs2 }).0.halted == s.halted,
        execute_outcome(s, d, Instr::Rem { rd, rs1, rs2 }).1.error == d.error,
{
    if s.regs[rs1 as int] == i32::MIN && s.regs[rs2 as int] == -1 {
        assert(trunc_quot(i32::MIN as int, -1) == 0x8000_0000);
        assert((0x8000_0000int) as i32 == i32::MIN) by (bit_vector);
        assert(trunc_rem(i32::MIN as int, -1) == 0);
    }
}


/// The register file after writing `v` to `rd`; writes to x0 are dropped.
pub open spec fn written(regs: Seq<i32>, rd: u8, v: i32) -> Seq<i32> {
    if rd == 0 {
        regs
    } else {
        regs.update(rd as int, v)
    }
}

/// What a cycle does, instruction by instruction: the machine fetches the
/// word at the pc, decodes it, and executes what it decodes to. Arithmetic
/// writes its result to `rd` (x0 excepted) and moves on to the next word;
/// a load or store outside memory faults; a taken branch or a jump moves
/// the pc by its offset; `ecall` prints `a0` when `a7` is 1, halts when it
/// is 10, and faults otherwise.
pub proof fn lemma_step_semantics(s: Machine)
    requires
        !s.halted,
        s.pc % 4 == 0,
        read_word_at(s.mem, s.pc) is Some,
        decoding(read_word_at(s.mem, s.pc)->Some_0 as u32) is Some,
    ensures
        ({
            let instr = decoding(read_word_at(s.mem, s.pc)->Some_0 as u32)->Some_0;
            let (t, d) = step_outcome(s);
            let r = s.regs;
            let next = s.pc.wrapping_add(4);
            &&& step_outcome(s) == execute_outcome(s, fresh_delta(s), instr)
            &&& d.pc_before == s.pc
            &&& match instr {
                Instr::Lui { rd, imm } => t.regs == written(r, rd, imm << 12u32) && t.pc == next,
                Instr::Addi { rd, rs1, imm } => t.regs == written(r, rd, r[rs1 as int].wrapping_add(imm))
                    && t.pc == next,
                Instr::Sltiu { rd, rs1, imm } => t.regs == written(
                    r,
                    rd,
                    set_if((r[rs1 as int] as u32) < (imm as u32)),
                ) && t.pc == next,
                Instr::Xori { rd, rs1, imm } => t.regs == written(r, rd, r[rs1 as int] ^ imm) && t.pc == next,
                Instr::Add { rd, rs1, rs2 } => t.regs == written(
                    r,
                    rd,
                    r[rs1 as int].wrapping_add(r[rs2 as int]),
                ) && t.pc == next,
                Instr::Sub { rd, rs1, rs2 } => t.regs == written(
                    r,
                    rd,
                    r[rs1 as int].wrapping_sub(r[rs2 as int]),
                ) && t.pc == next,
                Instr::Mul { rd, rs1, rs2 } => t.regs == written(
                    r,
                    rd,
                    r[rs1 as int].wrapping_mul(r[rs2 as int]),
                ) && t.pc == next,
                Instr::Div { rd, rs1, rs2 } => t.regs == written(r, rd, div_value(r[rs1 as int], r[rs2 as int]))
                    && t.pc == next,
                Instr::Rem { rd, rs1, rs2 } => t.regs == written(r, rd, rem_value(r[rs1 as int], r[rs2 as int]))
                    && t.pc == next,
                Instr::Slt { rd, rs1, rs2 } => t.regs == written(r, rd, set_if(r[rs1 as int] < r[rs2 as int]))
                    && t.pc == next,
                Instr::Sltu { rd, rs1, rs2 } => t.regs == written(
                    r,
                    rd,
                    set_if((r[rs1 as int] as u32) < (r[rs2 as int] as u32)),
                ) && t.pc == next,
                Instr::Lw { rd, rs1, imm } => match read_word_at(s.mem, r[rs1 as int].wrapping_add(imm) as u32) {
                    Some(v) => t.regs == written(r, rd, v) && t.pc == next && t.mem == s.mem,
                    None => t.halted && d.error is Some,
                },
                Instr::Sw { rs1, rs2, imm } => {
                    let a = r[rs1 as int].wrapping_add(imm) as u32;
                    match read_word_at(s.mem, a) {
                        Some(_) => t.mem == write_word_at(s.mem, a as int, r[rs2 as int]) && t.regs == r && t.pc
                            == next,
                        None => t.halted && d.error is Some,
                    }
                },
                Instr::Beq { rs1, rs2, offset } => t.regs == r && t.pc == (if r[rs1 as int] == r[rs2 as int] {
                    s.pc.wrapping_add(offset as u32)
                } else {
                    next
                }),
                Instr::Bne { rs1, rs2, offset } => t.regs == r && t.pc == (if r[rs1 as int] != r[rs2 as int] {
                    s.pc.wrapping_add(offset as u32)
                } else {
                    next
                }),
                Instr::Blt { rs1, rs2, offset } => t.regs == r && t.pc == (if r[rs1 as int] < r[rs2 as int] {
                    s.pc.wrapping_add(offset as u32)
                } else {
                    next
                }),
                Instr::Bge { rs1, rs2, offset } => t.regs == r && t.pc == (if r[rs1 as int] >= r[rs2 as int] {
                    s.pc.wrapping_add(offset as u32)
                } else {
                    next
                }),
                Instr::Jal { rd, offset } => t.regs == written(r, rd, next as i32) && t.pc == s.pc.wrapping_add(
                    offset as u32,
                ),
                Instr::Ecall => if r[17] == 1 {
                    d.output == Some(print_text(r[10])) && !t.halted && t.pc == next
                } else if r[17] == 10 {
                    t.halted && d.error is None && d.output is None
                } else {
                    t.halted && d.error is Some
                },
            }
        }),
{
}

} // verus!
