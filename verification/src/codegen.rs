//! Codegen: AST to RV32IM instructions, each tagged with the AST node it came
//! from (which in turn carries the source span: the provenance chain).
//!
//! Strategy:
//! - Each variable gets a 4-byte slot in a data section placed right after
//!   the code. `gp` (x3) is set up in a 2-instruction prologue to point at
//!   the data base, so every variable access is a `lw`/`sw` at `offset(gp)`.
//! - Expressions evaluate on a small "register stack" of temporaries t0-t6.
//! - Programs end with an exit ecall; `print(x)` is a print-int ecall.
use vstd::prelude::*;
use crate::ast::{BinOp, Expr, ExprKind, ExprKindV, ExprV, NodeId, Stmt, StmtKind, StmtKindV, StmtV, UnOp, expr_size, expr_spans_in, expr_view, span_in, stmt_size, stmt_spans_in, stmt_view, stmts_size, stmts_spans_in, stmts_view, lemma_stmts_view};
use crate::ir::{A0, A7, GP, Instr, NUM_TEMPS, Reg, SYSCALL_EXIT, SYSCALL_PRINT_INT, ZERO, regs_in_range, temp, temp_reg};
use crate::span::{CompileError, ErrorView, Span, error_at};

verus! {

/// One emitted instruction plus its provenance back-links.
#[derive(Clone, Copy, Debug)]
pub struct Emitted {
    pub instr: Instr,
    /// AST node this instruction was generated from. `None` for the fixed
    /// prologue (gp setup) and epilogue (exit ecall).
    pub node: Option<NodeId>,
    pub span: Option<Span>,
}

/// A variable's slot in the data section.
#[derive(Debug, Clone)]
pub struct VarSlot {
    pub name: String,
    /// Absolute address of the 4-byte slot.
    pub addr: u32,
}

#[derive(Debug)]
pub struct CodegenOutput {
    pub instrs: Vec<Emitted>,
    pub vars: Vec<VarSlot>,
    /// Total code size in bytes; the data section starts here.
    pub data_base: u32,
}

// ---- %hi / %lo ----------------------------------------------------------------

/// The upper part of `value` for `lui`, rounded so that the sign-extended
/// lower 12 bits added by `addi` make up the rest.
pub open spec fn hi_part(value: i32) -> i32 {
    (value.wrapping_add(0x800) >> 12u32) & 0xfffff
}

/// The lower part of `value` for `addi`, in -2048..=2047.
pub open spec fn lo_part(value: i32) -> i32 {
    value.wrapping_sub((value.wrapping_add(0x800) >> 12u32) << 12u32)
}

/// Split an absolute value into RISC-V %hi/%lo parts such that
/// `(hi << 12) + sign_extend(lo) == value`.
pub fn hi_lo(value: i32) -> (r: (i32, i32))
    ensures
        r == (hi_part(value), lo_part(value)),
{
    let hi = (value.wrapping_add(0x800)) >> 12u32;
    let lo = value.wrapping_sub(hi << 12u32);
    (hi & 0xfffff, lo)
}

proof fn bv_hi_lo(value: i32, w: i32, hi: i32, lo: i32, back: i32)
    by (bit_vector)
    requires
        w == (if value + 0x800 > 0x7fff_ffff {
            (value + 0x800 - 0x1_0000_0000) as i32
        } else {
            (value + 0x800) as i32
        }),
        hi == w >> 12u32,
        lo == (if value - (hi << 12u32) > 0x7fff_ffff {
            (value - (hi << 12u32) - 0x1_0000_0000) as i32
        } else if value - (hi << 12u32) < -0x8000_0000 {
            (value - (hi << 12u32) + 0x1_0000_0000) as i32
        } else {
            (value - (hi << 12u32)) as i32
        }),
        back == (if ((hi & 0xfffff) << 12u32) + lo > 0x7fff_ffff {
            (((hi & 0xfffff) << 12u32) + lo - 0x1_0000_0000) as i32
        } else if ((hi & 0xfffff) << 12u32) + lo < -0x8000_0000 {
            (((hi & 0xfffff) << 12u32) + lo + 0x1_0000_0000) as i32
        } else {
            (((hi & 0xfffff) << 12u32) + lo) as i32
        }),
    ensures
        back == value,
        -2048 <= lo <= 2047,
        0 <= hi & 0xfffff <= 0xfffff,
{
}

/// `lui` with the %hi part followed by `addi` with the %lo part rebuilds the
/// value, the %lo part fits the `addi` immediate and the %hi part fits the
/// 20-bit `lui` immediate.
pub proof fn lemma_hi_lo(value: i32)
    ensures
        (hi_part(value) << 12u32).wrapping_add(lo_part(value)) == value,
        -2048 <= lo_part(value) <= 2047,
        0 <= hi_part(value) <= 0xfffff,
{
    let w = value.wrapping_add(0x800);
    let hi = w >> 12u32;
    let lo = value.wrapping_sub(hi << 12u32);
    bv_hi_lo(value, w, hi, lo, (hi_part(value) << 12u32).wrapping_add(lo_part(value)));
}

// ---- the code of the language --------------------------------------------------

/// An instruction generated for AST node `id` with source span `span`.
pub open spec fn tagged(instr: Instr, id: NodeId, span: Span) -> Emitted {
    Emitted { instr, node: Some(id), span: Some(span) }
}

/// An instruction of the fixed prologue or epilogue.
pub open spec fn untagged(instr: Instr) -> Emitted {
    Emitted { instr, node: None, span: None }
}

/// The slot of the first variable named `name` at or after index `i`.
pub open spec fn find_var(vars: Seq<Seq<char>>, name: Seq<char>, i: int) -> Option<int>
    decreases vars.len() - i,
{
    if i < 0 || i >= vars.len() {
        None
    } else if vars[i] == name {
        Some(i)
    } else {
        find_var(vars, name, i + 1)
    }
}

pub(crate) proof fn lemma_find_var(vars: Seq<Seq<char>>, name: Seq<char>, i: int)
    requires
        0 <= i,
    ensures
        find_var(vars, name, i) matches Some(k) ==> 0 <= i <= k < vars.len() && vars[k] == name,
        find_var(vars, name, i) is None ==> forall|k: int| i <= k < vars.len() ==> vars[k] != name,
    decreases vars.len() - i,
{
    if 0 <= i < vars.len() && vars[i] != name {
        lemma_find_var(vars, name, i + 1);
    }
}

/// The slot of variable `name`.
pub open spec fn slot_of(vars: Seq<Seq<char>>, name: Seq<char>) -> Option<int> {
    find_var(vars, name, 0)
}

pub open spec fn too_deep_error(span: Span) -> ErrorView {
    error_at("expression too deeply nested (ran out of temporary registers)"@, span)
}

pub open spec fn undeclared_error(name: Seq<char>, span: Span) -> ErrorView {
    error_at("variable '"@ + name + "' is not declared"@, span)
}

pub open spec fn redeclared_error(name: Seq<char>, span: Span) -> ErrorView {
    error_at("variable '"@ + name + "' is already declared"@, span)
}

/// Materialize a 32-bit constant: one `addi` when it fits in 12 bits,
/// otherwise `lui` with the %hi part followed by `addi` with the %lo part.
pub open spec fn load_imm_code(rd: Reg, value: i32, id: NodeId, span: Span) -> Seq<Emitted> {
    if -2048 <= value <= 2047 {
        seq![tagged(Instr::Addi { rd, rs1: ZERO, imm: value }, id, span)]
    } else {
        seq![
            tagged(Instr::Lui { rd, imm: hi_part(value) }, id, span),
            tagged(Instr::Addi { rd, rs1: rd, imm: lo_part(value) }, id, span),
        ]
    }
}

/// The instructions of a binary operator on `r1` and `r2`; the result goes
/// into `r1`.
pub open spec fn binop_code(op: BinOp, r1: Reg, r2: Reg, id: NodeId, span: Span) -> Seq<Emitted> {
    match op {
        BinOp::Add => seq![tagged(Instr::Add { rd: r1, rs1: r1, rs2: r2 }, id, span)],
        BinOp::Sub => seq![tagged(Instr::Sub { rd: r1, rs1: r1, rs2: r2 }, id, span)],
        BinOp::Mul => seq![tagged(Instr::Mul { rd: r1, rs1: r1, rs2: r2 }, id, span)],
        BinOp::Div => seq![tagged(Instr::Div { rd: r1, rs1: r1, rs2: r2 }, id, span)],
        BinOp::Rem => seq![tagged(Instr::Rem { rd: r1, rs1: r1, rs2: r2 }, id, span)],
        BinOp::Lt => seq![tagged(Instr::Slt { rd: r1, rs1: r1, rs2: r2 }, id, span)],
        BinOp::Gt => seq![tagged(Instr::Slt { rd: r1, rs1: r2, rs2: r1 }, id, span)],
        // a <= b  ==  !(b < a)
        BinOp::Le => seq![
            tagged(Instr::Slt { rd: r1, rs1: r2, rs2: r1 }, id, span),
            tagged(Instr::Xori { rd: r1, rs1: r1, imm: 1 }, id, span),
        ],
        // a >= b  ==  !(a < b)
        BinOp::Ge => seq![
            tagged(Instr::Slt { rd: r1, rs1: r1, rs2: r2 }, id, span),
            tagged(Instr::Xori { rd: r1, rs1: r1, imm: 1 }, id, span),
        ],
        // a == b  ==  (a - b) unsigned< 1
        BinOp::Eq => seq![
            tagged(Instr::Sub { rd: r1, rs1: r1, rs2: r2 }, id, span),
            tagged(Instr::Sltiu { rd: r1, rs1: r1, imm: 1 }, id, span),
        ],
        // a != b  ==  0 unsigned< (a - b)
        BinOp::Ne => seq![
            tagged(Instr::Sub { rd: r1, rs1: r1, rs2: r2 }, id, span),
            tagged(Instr::Sltu { rd: r1, rs1: ZERO, rs2: r1 }, id, span),
        ],
    }
}

/// The code of an expression evaluated with `sp` temporaries in use: it
/// leaves the value in temporary `sp`.
pub open spec fn expr_code(e: ExprV, sp: nat, vars: Seq<Seq<char>>) -> Result<Seq<Emitted>, ErrorView>
    decreases e,
{
    match e.kind {
        ExprKindV::Int { value } => if sp >= NUM_TEMPS {
            Err(too_deep_error(e.span))
        } else {
            Ok(load_imm_code(temp_reg(sp as int), value, e.id, e.span))
        },
        ExprKindV::Var { name } => match slot_of(vars, name) {
            None => Err(undeclared_error(name, e.span)),
            Some(slot) => if sp >= NUM_TEMPS {
                Err(too_deep_error(e.span))
            } else {
                Ok(
                    seq![
                        tagged(
                            Instr::Lw { rd: temp_reg(sp as int), rs1: GP, imm: (slot * 4) as i32 },
                            e.id,
                            e.span,
                        ),
                    ],
                )
            },
        },
        ExprKindV::Unary { op, operand } => match expr_code(*operand, sp, vars) {
            Ok(c) => {
                let r = temp_reg(sp as int);
                // r = 0 - r
                Ok(c.push(tagged(Instr::Sub { rd: r, rs1: ZERO, rs2: r }, e.id, e.span)))
            },
            Err(err) => Err(err),
        },
        ExprKindV::Binary { op, lhs, rhs } => match expr_code(*lhs, sp, vars) {
            Ok(c1) => match expr_code(*rhs, sp + 1, vars) {
                Ok(c2) => Ok(
                    c1 + c2 + binop_code(
                        op,
                        temp_reg(sp as int),
                        temp_reg(sp + 1int),
                        e.id,
                        e.span,
                    ),
                ),
                Err(err) => Err(err),
            },
            Err(err) => Err(err),
        },
    }
}

/// Code of a statement or statement list, and the variables declared after it.
pub type StmtCode = Result<(Seq<Emitted>, Seq<Seq<char>>), ErrorView>;

/// A branch or jump `n` instructions forward (negative: backward).
pub open spec fn words(n: int) -> i32 {
    (n * 4) as i32
}

/// The code of a statement, given the variables declared before it.
pub open spec fn stmt_code(s: StmtV, vars: Seq<Seq<char>>) -> StmtCode
    decreases s, 0nat,
{
    match s.kind {
        StmtKindV::Let { name, init } => if slot_of(vars, name) is Some {
            Err(redeclared_error(name, s.span))
        } else {
            let vars1 = vars.push(name);
            match expr_code(init, 0, vars1) {
                Ok(c) => Ok(
                    (
                        c.push(
                            tagged(
                                Instr::Sw { rs1: GP, rs2: temp_reg(0), imm: (vars.len() * 4) as i32 },
                                s.id,
                                s.span,
                            ),
                        ),
                        vars1,
                    ),
                ),
                Err(e) => Err(e),
            }
        },
        StmtKindV::Assign { name, value } => match slot_of(vars, name) {
            None => Err(undeclared_error(name, s.span)),
            Some(slot) => match expr_code(value, 0, vars) {
                Ok(c) => Ok(
                    (
                        c.push(
                            tagged(
                                Instr::Sw { rs1: GP, rs2: temp_reg(0), imm: (slot * 4) as i32 },
                                s.id,
                                s.span,
                            ),
                        ),
                        vars,
                    ),
                ),
                Err(e) => Err(e),
            },
        },
        StmtKindV::Print { value } => match expr_code(value, 0, vars) {
            // a0 = value; a7 = print-int; ecall
            Ok(c) => Ok(
                (
                    c + seq![
                        tagged(Instr::Addi { rd: A0, rs1: temp_reg(0), imm: 0 }, s.id, s.span),
                        tagged(
                            Instr::Addi { rd: A7, rs1: ZERO, imm: SYSCALL_PRINT_INT },
                            s.id,
                            s.span,
                        ),
                        tagged(Instr::Ecall, s.id, s.span),
                    ],
                    vars,
                ),
            ),
            Err(e) => Err(e),
        },
        StmtKindV::If { cond, then_body, else_body } => match expr_code(cond, 0, vars) {
            Ok(c) => match stmts_code(then_body, vars) {
                Ok((t, vars1)) => match else_body {
                    None => Ok(
                        (
                            c + seq![
                                tagged(
                                    Instr::Beq { rs1: temp_reg(0), rs2: ZERO, offset: words(t.len() + 1int) },
                                    s.id,
                                    cond.span,
                                ),
                            ] + t,
                            vars1,
                        ),
                    ),
                    Some(els) => match stmts_code(els, vars1) {
                        Ok((e, vars2)) => Ok(
                            (
                                c + seq![
                                    tagged(
                                        Instr::Beq {
                                            rs1: temp_reg(0),
                                            rs2: ZERO,
                                            offset: words(t.len() + 2int),
                                        },
                                        s.id,
                                        cond.span,
                                    ),
                                ] + t + seq![
                                    tagged(
                                        Instr::Jal { rd: ZERO, offset: words(e.len() + 1int) },
                                        s.id,
                                        s.span,
                                    ),
                                ] + e,
                                vars2,
                            ),
                        ),
                        Err(err) => Err(err),
                    },
                },
                Err(err) => Err(err),
            },
            Err(err) => Err(err),
        },
        StmtKindV::While { cond, body } => match expr_code(cond, 0, vars) {
            Ok(c) => match stmts_code(body, vars) {
                Ok((b, vars1)) => Ok(
                    (
                        c + seq![
                            tagged(
                                Instr::Beq { rs1: temp_reg(0), rs2: ZERO, offset: words(b.len() + 2int) },
                                s.id,
                                cond.span,
                            ),
                        ] + b + seq![
                            tagged(
                                Instr::Jal { rd: ZERO, offset: words(-(c.len() + 1 + b.len())) },
                                s.id,
                                s.span,
                            ),
                        ],
                        vars1,
                    ),
                ),
                Err(err) => Err(err),
            },
            Err(err) => Err(err),
        },
    }
}

/// The code of a statement list, in order, threading the declared variables.
pub open spec fn stmts_code(ss: Seq<StmtV>, vars: Seq<Seq<char>>) -> StmtCode
    decreases ss, 1nat,
{
    if ss.len() == 0 {
        Ok((Seq::empty(), vars))
    } else {
        match stmt_code(ss[0], vars) {
            Ok((c, vars1)) => match stmts_code(ss.drop_first(), vars1) {
                Ok((rest, vars2)) => Ok((c + rest, vars2)),
                Err(e) => Err(e),
            },
            Err(e) => Err(e),
        }
    }
}

/// The whole program: the `gp` prologue pointing at the data section right
/// after the code, the statements, and the exit epilogue.
pub open spec fn program_code(prog: Seq<StmtV>) -> StmtCode {
    match stmts_code(prog, Seq::empty()) {
        Ok((body, vars)) => {
            let base = ((body.len() + 4) * 4) as i32;
            Ok(
                (
                    seq![
                        untagged(Instr::Lui { rd: GP, imm: hi_part(base) }),
                        untagged(Instr::Addi { rd: GP, rs1: GP, imm: lo_part(base) }),
                    ] + body + seq![
                        untagged(Instr::Addi { rd: A7, rs1: ZERO, imm: SYSCALL_EXIT }),
                        untagged(Instr::Ecall),
                    ],
                    vars,
                ),
            )
        },
        Err(e) => Err(e),
    }
}

/// Every AST node generates at most three instructions.
pub proof fn lemma_expr_code_len(e: ExprV, sp: nat, vars: Seq<Seq<char>>)
    ensures
        expr_code(e, sp, vars) matches Ok(c) ==> c.len() <= 3 * expr_size(e),
    decreases e,
{
    match e.kind {
        ExprKindV::Unary { op, operand } => lemma_expr_code_len(*operand, sp, vars),
        ExprKindV::Binary { op, lhs, rhs } => {
            lemma_expr_code_len(*lhs, sp, vars);
            lemma_expr_code_len(*rhs, sp + 1, vars);
        },
        _ => {},
    }
}

pub proof fn lemma_stmt_code_len(s: StmtV, vars: Seq<Seq<char>>)
    ensures
        stmt_code(s, vars) matches Ok((c, v)) ==> c.len() <= 3 * stmt_size(s) && v.len() <= vars.len()
            + c.len(),
    decreases s, 0nat,
{
    match s.kind {
        StmtKindV::Let { name, init } => lemma_expr_code_len(init, 0, vars.push(name)),
        StmtKindV::Assign { name, value } => lemma_expr_code_len(value, 0, vars),
        StmtKindV::Print { value } => lemma_expr_code_len(value, 0, vars),
        StmtKindV::If { cond, then_body, else_body } => {
            lemma_expr_code_len(cond, 0, vars);
            lemma_stmts_code_len(then_body, vars);
            if let Ok((t, vars1)) = stmts_code(then_body, vars) {
                if let Some(els) = else_body {
                    lemma_stmts_code_len(els, vars1);
                }
            }
        },
        StmtKindV::While { cond, body } => {
            lemma_expr_code_len(cond, 0, vars);
            lemma_stmts_code_len(body, vars);
        },
    }
}

pub proof fn lemma_stmts_code_len(ss: Seq<StmtV>, vars: Seq<Seq<char>>)
    ensures
        stmts_code(ss, vars) matches Ok((c, v)) ==> c.len() <= 3 * stmts_size(ss) && v.len() <= vars.len()
            + c.len(),
    decreases ss, 1nat,
{
    if ss.len() > 0 {
        lemma_stmt_code_len(ss[0], vars);
        if let Ok((c, vars1)) = stmt_code(ss[0], vars) {
            lemma_stmts_code_len(ss.drop_first(), vars1);
        }
    }
}

// ---- labels and fixups ------------------------------------------------------

/// Instructions at most this many: branch offsets and data addresses then
/// stay far from the 32-bit limits.
pub const MAX_INSTRS: usize = 0x1000_0000;

/// `instr` with its branch or jump offset replaced by `off`.
pub open spec fn with_offset(instr: Instr, off: i32) -> Instr {
    match instr {
        Instr::Beq { rs1, rs2, .. } => Instr::Beq { rs1, rs2, offset: off },
        Instr::Bne { rs1, rs2, .. } => Instr::Bne { rs1, rs2, offset: off },
        Instr::Blt { rs1, rs2, .. } => Instr::Blt { rs1, rs2, offset: off },
        Instr::Bge { rs1, rs2, .. } => Instr::Bge { rs1, rs2, offset: off },
        Instr::Jal { rd, .. } => Instr::Jal { rd, offset: off },
        _ => instr,
    }
}

/// The label that the last fixup recorded for instruction `i` points at.
pub open spec fn label_of(fixups: Seq<(usize, usize)>, i: int) -> Option<usize>
    decreases fixups.len(),
{
    if fixups.len() == 0 {
        None
    } else if fixups.last().0 == i {
        Some(fixups.last().1)
    } else {
        label_of(fixups.drop_last(), i)
    }
}

/// Instruction `i` once every fixup whose label is bound is applied: a
/// branch or jump to a bound label gets the offset from itself to the label.
pub open spec fn resolved_at(
    instrs: Seq<Emitted>,
    label_pos: Seq<Option<usize>>,
    fixups: Seq<(usize, usize)>,
    i: int,
) -> Emitted {
    match label_of(fixups, i) {
        Some(l) => match label_pos[l as int] {
            Some(pos) => Emitted { instr: with_offset(instrs[i].instr, words(pos - i)), ..instrs[i] },
            None => instrs[i],
        },
        None => instrs[i],
    }
}

proof fn lemma_label_of_append(f: Seq<(usize, usize)>, g: Seq<(usize, usize)>, i: int)
    requires
        forall|j: int| 0 <= j < g.len() ==> g[j].0 != i,
    ensures
        label_of(f + g, i) == label_of(f, i),
    decreases g.len(),
{
    if g.len() > 0 {
        assert((f + g).drop_last() =~= f + g.drop_last());
        lemma_label_of_append(f, g.drop_last(), i);
    } else {
        assert(f + g =~= f);
    }
}

proof fn lemma_label_of_none(f: Seq<(usize, usize)>, i: int)
    requires
        forall|j: int| 0 <= j < f.len() ==> f[j].0 != i,
    ensures
        label_of(f, i) is None,
    decreases f.len(),
{
    if f.len() > 0 {
        lemma_label_of_none(f.drop_last(), i);
    }
}

proof fn lemma_label_of_in(f: Seq<(usize, usize)>, i: int) -> (j: int)
    requires
        label_of(f, i) is Some,
    ensures
        0 <= j < f.len(),
        f[j].0 == i,
        f[j].1 == label_of(f, i).unwrap(),
    decreases f.len(),
{
    if f.last().0 == i {
        (f.len() - 1) as int
    } else {
        lemma_label_of_in(f.drop_last(), i)
    }
}

// ---- the generator ---------------------------------------------------------

type Label = usize;

struct Codegen {
    instrs: Vec<Emitted>,
    /// Variable names in declaration order: slot N holds the N-th name and
    /// lives at `data_base + N*4`.
    var_order: Vec<String>,
    /// next free temporary (expression register stack pointer)
    temp_sp: usize,
    /// label to the instruction index it points at
    label_pos: Vec<Option<usize>>,
    /// (instruction index, label) pairs to backpatch
    fixups: Vec<(usize, Label)>,
}

/// The code `code` stands at `[a, a + code.len())` of the generator `g` once
/// its fixups are applied, and every branch there points at a bound label
/// numbered at least `w`.
pub open spec fn segment_ok(
    instrs: Seq<Emitted>,
    label_pos: Seq<Option<usize>>,
    fixups: Seq<(usize, usize)>,
    a: int,
    code: Seq<Emitted>,
    w: int,
) -> bool {
    &&& 0 <= a
    &&& a + code.len() <= instrs.len()
    &&& forall|k: int|
        #![trigger code[k]]
        0 <= k < code.len() ==> {
            &&& resolved_at(instrs, label_pos, fixups, a + k) == code[k]
            &&& (label_of(fixups, a + k) matches Some(l) ==> l >= w && label_pos[l as int] is Some)
        }
}

impl Codegen {
    spec fn vars(&self) -> Seq<Seq<char>> {
        self.var_order@.map_values(|s: String| s@)
    }

    spec fn segment(&self, a: int, code: Seq<Emitted>, w: int) -> bool {
        segment_ok(self.instrs@, self.label_pos@, self.fixups@, a, code, w)
    }

    /// Every fixup points at an emitted instruction and an allocated label,
    /// fixups are recorded in instruction order, and no variable is declared
    /// twice.
    spec fn wf(&self) -> bool {
        &&& self.vars().no_duplicates()
        &&& self.instrs@.len() <= MAX_INSTRS
        &&& self.temp_sp <= NUM_TEMPS
        &&& forall|j: int|
            #![trigger self.fixups@[j]]
            0 <= j < self.fixups@.len() ==> self.fixups@[j].0 < self.instrs@.len()
                && self.fixups@[j].1 < self.label_pos@.len()
        &&& forall|j: int, k: int|
            #![trigger self.fixups@[j], self.fixups@[k]]
            0 <= j < k < self.fixups@.len() ==> self.fixups@[j].0 < self.fixups@[k].0
        &&& forall|l: int|
            #![trigger self.label_pos@[l]]
            0 <= l < self.label_pos@.len() ==> (self.label_pos@[l] matches Some(p) ==> p
                <= self.instrs@.len())
    }

    /// `self` only added to `o`: instructions and fixups are extended, new
    /// fixups are for new instructions, and no label of `o` moved.
    spec fn extends(&self, o: &Codegen) -> bool {
        &&& o.instrs@.len() <= self.instrs@.len()
        &&& forall|i: int| 0 <= i < o.instrs@.len() ==> self.instrs@[i] == o.instrs@[i]
        &&& o.fixups@.len() <= self.fixups@.len()
        &&& forall|j: int| 0 <= j < o.fixups@.len() ==> self.fixups@[j] == o.fixups@[j]
        &&& forall|j: int|
            #![trigger self.fixups@[j]]
            o.fixups@.len() <= j < self.fixups@.len() ==> self.fixups@[j].0 >= o.instrs@.len()
        &&& o.label_pos@.len() <= self.label_pos@.len()
        &&& forall|l: int| 0 <= l < o.label_pos@.len() ==> self.label_pos@[l] == o.label_pos@[l]
    }

    /// Every fixup added since `o` patches a branch or jump and points at a
    /// bound label that `o` had not allocated yet.
    spec fn settled_since(&self, o: &Codegen) -> bool {
        forall|j: int|
            #![trigger self.fixups@[j]]
            o.fixups@.len() <= j < self.fixups@.len() ==> self.fixups@[j].1 >= o.label_pos@.len()
                && self.label_pos@[self.fixups@[j].1 as int] is Some && self.fixup_on_jump(j)
    }

    /// Fixup `j` patches a branch or a jump.
    spec fn fixup_on_jump(&self, j: int) -> bool {
        jump_offset(self.instrs@[self.fixups@[j].0 as int].instr) is Some
    }

    /// A whole statement (list) turned into `code` between `o` and `self`.
    spec fn emitted_block(&self, o: &Codegen, code: Seq<Emitted>) -> bool {
        &&& self.wf()
        &&& self.extends(o)
        &&& self.settled_since(o)
        &&& self.instrs@.len() == o.instrs@.len() + code.len()
        &&& self.segment(o.instrs@.len() as int, code, o.label_pos@.len() as int)
        &&& self.temp_sp == o.temp_sp
    }
}

proof fn lemma_extends_frame(n: &Codegen, o: &Codegen, i: int)
    requires
        n.extends(o),
        o.wf(),
        0 <= i < o.instrs@.len(),
    ensures
        label_of(n.fixups@, i) == label_of(o.fixups@, i),
        resolved_at(n.instrs@, n.label_pos@, n.fixups@, i) == resolved_at(
            o.instrs@,
            o.label_pos@,
            o.fixups@,
            i,
        ),
{
    let g = n.fixups@.subrange(o.fixups@.len() as int, n.fixups@.len() as int);
    assert(n.fixups@ =~= o.fixups@ + g);
    assert forall|j: int| 0 <= j < g.len() implies g[j].0 != i by {
        assert(g[j] == n.fixups@[o.fixups@.len() + j]);
    }
    lemma_label_of_append(o.fixups@, g, i);
    if let Some(l) = label_of(o.fixups@, i) {
        let j = lemma_label_of_in(o.fixups@, i);
        assert(o.fixups@[j].1 < o.label_pos@.len());
    }
}

proof fn lemma_extends_segment(n: &Codegen, o: &Codegen, a: int, code: Seq<Emitted>, w: int)
    requires
        n.extends(o),
        o.wf(),
        o.segment(a, code, w),
    ensures
        n.segment(a, code, w),
{
    assert forall|k: int| #![trigger code[k]] 0 <= k < code.len() implies {
        &&& resolved_at(n.instrs@, n.label_pos@, n.fixups@, a + k) == code[k]
        &&& (label_of(n.fixups@, a + k) matches Some(l) ==> l >= w && n.label_pos@[l as int] is Some)
    } by {
        lemma_extends_frame(n, o, a + k);
        if let Some(l) = label_of(o.fixups@, a + k) {
            let j = lemma_label_of_in(o.fixups@, a + k);
            assert(o.fixups@[j].1 < o.label_pos@.len());
        }
    }
}

/// Binding a label below `w` does not disturb a segment whose branches all
/// point at labels from `w` on.
proof fn lemma_bind_segment(n: &Codegen, o: &Codegen, l: int, pos: usize, a: int, code: Seq<Emitted>, w: int)
    requires
        o.segment(a, code, w),
        o.wf(),
        0 <= l < w,
        l < o.label_pos@.len(),
        n.instrs@ == o.instrs@,
        n.fixups@ == o.fixups@,
        n.label_pos@ == o.label_pos@.update(l, Some(pos)),
    ensures
        n.segment(a, code, w),
{
    assert forall|k: int| #![trigger code[k]] 0 <= k < code.len() implies {
        &&& resolved_at(n.instrs@, n.label_pos@, n.fixups@, a + k) == code[k]
        &&& (label_of(n.fixups@, a + k) matches Some(l2) ==> l2 >= w && n.label_pos@[l2 as int] is Some)
    } by {
        if let Some(l2) = label_of(o.fixups@, a + k) {
            let j = lemma_label_of_in(o.fixups@, a + k);
            assert(o.fixups@[j].1 < o.label_pos@.len());
        }
    }
}

/// Instructions past every fixup are their own resolution.
proof fn lemma_plain_segment(g: &Codegen, a: int, code: Seq<Emitted>, w: int)
    requires
        g.wf(),
        forall|j: int| 0 <= j < g.fixups@.len() ==> g.fixups@[j].0 < a,
        0 <= a,
        a + code.len() <= g.instrs@.len(),
        forall|k: int| 0 <= k < code.len() ==> g.instrs@[a + k] == code[k],
    ensures
        g.segment(a, code, w),
{
    assert forall|k: int| #![trigger code[k]] 0 <= k < code.len() implies {
        &&& resolved_at(g.instrs@, g.label_pos@, g.fixups@, a + k) == code[k]
        &&& (label_of(g.fixups@, a + k) matches Some(l) ==> l >= w && g.label_pos@[l as int] is Some)
    } by {
        lemma_label_of_none(g.fixups@, a + k);
    }
}

impl Codegen {
    // ---- emission helpers ----------------------------------------------

    fn emit(&mut self, instr: Instr, node: Option<NodeId>, span: Option<Span>)
        requires
            old(self).wf(),
            old(self).instrs@.len() < MAX_INSTRS,
        ensures
            final(self).instrs@ == old(self).instrs@.push(Emitted { instr, node, span }),
            final(self).var_order == old(self).var_order,
            final(self).temp_sp == old(self).temp_sp,
            final(self).label_pos == old(self).label_pos,
            final(self).fixups == old(self).fixups,
            final(self).wf(),
    {
        self.instrs.push(Emitted { instr, node, span });
    }

    fn new_label(&mut self) -> (l: Label)
        ensures
            l == old(self).label_pos@.len(),
            final(self).label_pos@ == old(self).label_pos@.push(None),
            final(self).instrs == old(self).instrs,
            final(self).var_order == old(self).var_order,
            final(self).temp_sp == old(self).temp_sp,
            final(self).fixups == old(self).fixups,
            old(self).wf() ==> final(self).wf(),
    {
        self.label_pos.push(None);
        self.label_pos.len() - 1
    }

    /// Bind `label` to the *next* instruction to be emitted.
    fn bind(&mut self, label: Label)
        requires
            label < old(self).label_pos@.len(),
        ensures
            final(self).label_pos@ == old(self).label_pos@.update(
                label as int,
                Some(old(self).instrs@.len() as usize),
            ),
            final(self).instrs == old(self).instrs,
            final(self).var_order == old(self).var_order,
            final(self).temp_sp == old(self).temp_sp,
            final(self).fixups == old(self).fixups,
            old(self).wf() ==> final(self).wf(),
    {
        let at = self.instrs.len();
        self.label_pos.set(label, Some(at));
    }

    /// Emit a branch or jump whose offset will be patched to `label` later.
    fn emit_to_label(&mut self, instr: Instr, label: Label, node: NodeId, span: Span)
        requires
            old(self).wf(),
            old(self).instrs@.len() < MAX_INSTRS,
            label < old(self).label_pos@.len(),
        ensures
            final(self).instrs@ == old(self).instrs@.push(tagged(instr, node, span)),
            final(self).fixups@ == old(self).fixups@.push((old(self).instrs@.len() as usize, label)),
            final(self).var_order == old(self).var_order,
            final(self).temp_sp == old(self).temp_sp,
            final(self).label_pos == old(self).label_pos,
            final(self).wf(),
    {
        let at = self.instrs.len();
        self.emit(instr, Some(node), Some(span));
        self.fixups.push((at, label));
    }

    /// Patch every recorded branch and jump with the offset to its label.
    fn resolve_fixups(&mut self)
        requires
            old(self).wf(),
            forall|j: int|
                #![trigger old(self).fixups@[j]]
                0 <= j < old(self).fixups@.len() ==> old(self).label_pos@[old(self).fixups@[j].1 as int] is Some,
        ensures
            final(self).instrs@.len() == old(self).instrs@.len(),
            forall|i: int|
                0 <= i < old(self).instrs@.len() ==> #[trigger] final(self).instrs@[i] == resolved_at(
                    old(self).instrs@,
                    old(self).label_pos@,
                    old(self).fixups@,
                    i,
                ),
            final(self).var_order == old(self).var_order,
            final(self).temp_sp == old(self).temp_sp,
            final(self).label_pos == old(self).label_pos,
            final(self).fixups == old(self).fixups,
            final(self).wf(),
    {
        let ghost orig = self.instrs@;
        let mut j: usize = 0;
        while j < self.fixups.len()
            invariant
                self.wf(),
                self.instrs@.len() == orig.len(),
                self.fixups == old(self).fixups,
                self.label_pos == old(self).label_pos,
                self.var_order == old(self).var_order,
                self.temp_sp == old(self).temp_sp,
                orig == old(self).instrs@,
                j <= self.fixups@.len(),
                forall|jj: int|
                    #![trigger self.fixups@[jj]]
                    0 <= jj < self.fixups@.len() ==> self.label_pos@[self.fixups@[jj].1 as int] is Some,
                forall|i: int|
                    0 <= i < orig.len() ==> #[trigger] self.instrs@[i] == resolved_at(
                        orig,
                        self.label_pos@,
                        self.fixups@.take(j as int),
                        i,
                    ),
            decreases self.fixups@.len() - j,
        {
            let (idx, label) = self.fixups[j];
            proof {
                assert(self.fixups@[j as int] == (idx, label));
                assert forall|jj: int| 0 <= jj < self.fixups@.take(j as int).len() implies self.fixups@.take(
                    j as int,
                )[jj].0 != idx by {
                    assert(self.fixups@.take(j as int)[jj] == self.fixups@[jj]);
                }
                lemma_label_of_none(self.fixups@.take(j as int), idx as int);
                assert(self.fixups@.take(j as int + 1).drop_last() =~= self.fixups@.take(j as int));
            }
            if let Some(target) = self.label_pos[label] {
                let offset = (target as i32 - idx as i32) * 4;
                let e = self.instrs[idx];
                let instr = match e.instr {
                    Instr::Beq { rs1, rs2, .. } => Instr::Beq { rs1, rs2, offset },
                    Instr::Bne { rs1, rs2, .. } => Instr::Bne { rs1, rs2, offset },
                    Instr::Blt { rs1, rs2, .. } => Instr::Blt { rs1, rs2, offset },
                    Instr::Bge { rs1, rs2, .. } => Instr::Bge { rs1, rs2, offset },
                    Instr::Jal { rd, .. } => Instr::Jal { rd, offset },
                    other => other,
                };
                self.instrs.set(idx, Emitted { instr, node: e.node, span: e.span });
            }
            j = j + 1;
        }
        assert(self.fixups@.take(j as int) =~= self.fixups@);
    }

    // ---- temporaries (the expression register stack) ---------------------

    fn push_temp(&mut self, span: Span) -> (r: Result<Reg, CompileError>)
        requires
            old(self).wf(),
        ensures
            final(self).instrs == old(self).instrs,
            final(self).var_order == old(self).var_order,
            final(self).label_pos == old(self).label_pos,
            final(self).fixups == old(self).fixups,
            final(self).wf(),
            match r {
                Ok(reg) => old(self).temp_sp < NUM_TEMPS && reg == temp_reg(old(self).temp_sp as int)
                    && final(self).temp_sp == old(self).temp_sp + 1,
                Err(e) => old(self).temp_sp >= NUM_TEMPS && e@ == too_deep_error(span),
            },
    {
        if self.temp_sp >= NUM_TEMPS {
            return Err(
                CompileError::new(
                    String::from_str("expression too deeply nested (ran out of temporary registers)"),
                    span,
                ),
            );
        }
        let r = temp(self.temp_sp);
        self.temp_sp = self.temp_sp + 1;
        Ok(r)
    }

    fn pop_temp(&mut self)
        requires
            old(self).temp_sp > 0,
        ensures
            final(self).temp_sp == old(self).temp_sp - 1,
            final(self).instrs == old(self).instrs,
            final(self).var_order == old(self).var_order,
            final(self).label_pos == old(self).label_pos,
            final(self).fixups == old(self).fixups,
            old(self).wf() ==> final(self).wf(),
    {
        self.temp_sp = self.temp_sp - 1;
    }

    // ---- variables -------------------------------------------------------

    /// The slot of variable `name`, if declared.
    fn slot(&self, name: &String) -> (r: Option<u32>)
        requires
            self.var_order@.len() <= u32::MAX,
        ensures
            match r {
                Some(s) => slot_of(self.vars(), name@) == Some(s as int),
                None => slot_of(self.vars(), name@) is None,
            },
    {
        let mut i: usize = 0;
        while i < self.var_order.len()
            invariant
                i <= self.var_order@.len(),
                self.var_order@.len() <= u32::MAX,
                slot_of(self.vars(), name@) == find_var(self.vars(), name@, i as int),
            decreases self.var_order@.len() - i,
        {
            if self.var_order[i] == *name {
                return Some(i as u32);
            }
            i = i + 1;
        }
        None
    }

    fn declare(&mut self, name: &String, span: Span) -> (r: Result<u32, CompileError>)
        requires
            old(self).wf(),
            old(self).var_order@.len() < u32::MAX,
        ensures
            final(self).wf(),
            final(self).instrs == old(self).instrs,
            final(self).temp_sp == old(self).temp_sp,
            final(self).label_pos == old(self).label_pos,
            final(self).fixups == old(self).fixups,
            match r {
                Ok(slot) => slot_of(old(self).vars(), name@) is None && slot == old(self).vars().len()
                    && final(self).vars() == old(self).vars().push(name@),
                Err(e) => slot_of(old(self).vars(), name@) is Some && e@ == redeclared_error(
                    name@,
                    span,
                ),
            },
    {
        if self.slot(name).is_some() {
            let mut m = String::from_str("variable '");
            m.append(name.as_str());
            m.append("' is already declared");
            return Err(CompileError::new(m, span));
        }
        let slot = self.var_order.len() as u32;
        self.var_order.push(name.clone());
        assert(self.vars() =~= old(self).vars().push(name@));
        proof {
            lemma_find_var(old(self).vars(), name@, 0);
        }
        Ok(slot)
    }

    fn lookup(&self, name: &String, span: Span) -> (r: Result<u32, CompileError>)
        requires
            self.var_order@.len() <= u32::MAX,
        ensures
            match r {
                Ok(slot) => slot_of(self.vars(), name@) == Some(slot as int),
                Err(e) => slot_of(self.vars(), name@) is None && e@ == undeclared_error(name@, span),
            },
    {
        match self.slot(name) {
            Some(s) => Ok(s),
            None => {
                let mut m = String::from_str("variable '");
                m.append(name.as_str());
                m.append("' is not declared");
                Err(CompileError::new(m, span))
            },
        }
    }

    /// Materialize a 32-bit constant: a single `addi` when it fits in 12
    /// bits, otherwise `lui` + `addi`.
    fn load_imm(&mut self, rd: Reg, value: i32, node: NodeId, span: Span)
        requires
            old(self).wf(),
            old(self).instrs@.len() + 2 <= MAX_INSTRS,
        ensures
            final(self).instrs@ == old(self).instrs@ + load_imm_code(rd, value, node, span),
            final(self).var_order == old(self).var_order,
            final(self).temp_sp == old(self).temp_sp,
            final(self).label_pos == old(self).label_pos,
            final(self).fixups == old(self).fixups,
            final(self).wf(),
    {
        if -2048 <= value && value <= 2047 {
            self.emit(Instr::Addi { rd, rs1: ZERO, imm: value }, Some(node), Some(span));
        } else {
            let (hi, lo) = hi_lo(value);
            self.emit(Instr::Lui { rd, imm: hi }, Some(node), Some(span));
            self.emit(Instr::Addi { rd, rs1: rd, imm: lo }, Some(node), Some(span));
        }
        assert(self.instrs@ =~= old(self).instrs@ + load_imm_code(rd, value, node, span));
    }
}

impl Codegen {
    // ---- expressions --------------------------------------------------
    //
    // Each expression leaves its result in a freshly pushed temporary and
    // returns that register. The caller pops when done.

    fn expr(&mut self, expr: &Expr) -> (res: Result<Reg, CompileError>)
        requires
            old(self).wf(),
            old(self).var_order@.len() < old(self).instrs@.len(),
            old(self).instrs@.len() + 3 * expr_size(expr_view(*expr)) <= MAX_INSTRS,
        ensures
            final(self).wf(),
            match expr_code(expr_view(*expr), old(self).temp_sp as nat, old(self).vars()) {
                Ok(code) => {
                    &&& res == Ok::<Reg, CompileError>(temp_reg(old(self).temp_sp as int))
                    &&& final(self).instrs@ == old(self).instrs@ + code
                    &&& final(self).temp_sp == old(self).temp_sp + 1
                    &&& final(self).var_order == old(self).var_order
                    &&& final(self).label_pos == old(self).label_pos
                    &&& final(self).fixups == old(self).fixups
                },
                Err(e) => res matches Err(x) && x@ == e,
            },
        decreases expr,
    {
        let ghost sp = self.temp_sp as nat;
        let ghost ev = expr_view(*expr);
        match &expr.kind {
            ExprKind::Int { value } => {
                let rd = self.push_temp(expr.span)?;
                self.load_imm(rd, *value, expr.id, expr.span);
                Ok(rd)
            },
            ExprKind::Var { name } => {
                let slot = self.lookup(name, expr.span)?;
                proof {
                    lemma_find_var(self.vars(), name@, 0);
                }
                let rd = self.push_temp(expr.span)?;
                self.emit(
                    Instr::Lw { rd, rs1: GP, imm: (slot * 4) as i32 },
                    Some(expr.id),
                    Some(expr.span),
                );
                Ok(rd)
            },
            ExprKind::Unary { op: UnOp::Neg, operand } => {
                proof {
                    lemma_expr_code_len(expr_view(**operand), sp, self.vars());
                }
                let r = self.expr(operand)?;
                // r = 0 - r
                self.emit(Instr::Sub { rd: r, rs1: ZERO, rs2: r }, Some(expr.id), Some(expr.span));
                assert(self.instrs@ =~= old(self).instrs@ + expr_code(ev, sp, old(self).vars())->Ok_0);
                Ok(r)
            },
            ExprKind::Binary { op, lhs, rhs } => {
                proof {
                    lemma_expr_code_len(expr_view(**lhs), sp, self.vars());
                    lemma_expr_code_len(expr_view(**rhs), sp + 1, self.vars());
                }
                let r1 = self.expr(lhs)?;
                let r2 = self.expr(rhs)?;
                let ghost mid = self.instrs@;
                let id = Some(expr.id);
                let sp_ = Some(expr.span);
                // result goes into r1; r2 is popped
                match op {
                    BinOp::Add => self.emit(Instr::Add { rd: r1, rs1: r1, rs2: r2 }, id, sp_),
                    BinOp::Sub => self.emit(Instr::Sub { rd: r1, rs1: r1, rs2: r2 }, id, sp_),
                    BinOp::Mul => self.emit(Instr::Mul { rd: r1, rs1: r1, rs2: r2 }, id, sp_),
                    BinOp::Div => self.emit(Instr::Div { rd: r1, rs1: r1, rs2: r2 }, id, sp_),
                    BinOp::Rem => self.emit(Instr::Rem { rd: r1, rs1: r1, rs2: r2 }, id, sp_),
                    BinOp::Lt => self.emit(Instr::Slt { rd: r1, rs1: r1, rs2: r2 }, id, sp_),
                    BinOp::Gt => self.emit(Instr::Slt { rd: r1, rs1: r2, rs2: r1 }, id, sp_),
                    BinOp::Le => {
                        // a <= b  ==  !(b < a)
                        self.emit(Instr::Slt { rd: r1, rs1: r2, rs2: r1 }, id, sp_);
                        self.emit(Instr::Xori { rd: r1, rs1: r1, imm: 1 }, id, sp_);
                    },
                    BinOp::Ge => {
                        // a >= b  ==  !(a < b)
                        self.emit(Instr::Slt { rd: r1, rs1: r1, rs2: r2 }, id, sp_);
                        self.emit(Instr::Xori { rd: r1, rs1: r1, imm: 1 }, id, sp_);
                    },
                    BinOp::Eq => {
                        // a == b  ==  (a - b) unsigned< 1
                        self.emit(Instr::Sub { rd: r1, rs1: r1, rs2: r2 }, id, sp_);
                        self.emit(Instr::Sltiu { rd: r1, rs1: r1, imm: 1 }, id, sp_);
                    },
                    BinOp::Ne => {
                        // a != b  ==  0 unsigned< (a - b)
                        self.emit(Instr::Sub { rd: r1, rs1: r1, rs2: r2 }, id, sp_);
                        self.emit(Instr::Sltu { rd: r1, rs1: ZERO, rs2: r1 }, id, sp_);
                    },
                }
                assert(self.instrs@ =~= mid + binop_code(*op, r1, r2, expr.id, expr.span));
                self.pop_temp();  // r2
                assert(self.instrs@ =~= old(self).instrs@ + expr_code(ev, sp, old(self).vars())->Ok_0);
                Ok(r1)
            },
        }
    }
}

// ---- composing statement code ------------------------------------------------

proof fn lemma_extends_trans(c: &Codegen, b: &Codegen, a: &Codegen)
    requires
        b.extends(a),
        c.extends(b),
    ensures
        c.extends(a),
{
    assert forall|j: int| #![trigger c.fixups@[j]] a.fixups@.len() <= j < c.fixups@.len() implies c.fixups@[j].0
        >= a.instrs@.len() by {
        if j < b.fixups@.len() {
            assert(c.fixups@[j] == b.fixups@[j]);
        }
    }
}

/// Binding a label that `a` had not allocated keeps `a`'s labels in place.
proof fn lemma_extends_bind(n: &Codegen, o: &Codegen, a: &Codegen, l: int, pos: usize)
    requires
        o.extends(a),
        a.label_pos@.len() <= l < o.label_pos@.len(),
        n.instrs@ == o.instrs@,
        n.fixups@ == o.fixups@,
        n.label_pos@ == o.label_pos@.update(l, Some(pos)),
    ensures
        n.extends(a),
{
}

proof fn lemma_segment_lower(g: &Codegen, a: int, code: Seq<Emitted>, w: int, w2: int)
    requires
        g.segment(a, code, w),
        w2 <= w,
    ensures
        g.segment(a, code, w2),
{
    assert forall|k: int| #![trigger code[k]] 0 <= k < code.len() implies {
        &&& resolved_at(g.instrs@, g.label_pos@, g.fixups@, a + k) == code[k]
        &&& (label_of(g.fixups@, a + k) matches Some(l) ==> l >= w2 && g.label_pos@[l as int] is Some)
    } by {
    }
}

proof fn lemma_segment_concat(g: &Codegen, a: int, c1: Seq<Emitted>, c2: Seq<Emitted>, w: int)
    requires
        g.segment(a, c1, w),
        g.segment(a + c1.len(), c2, w),
    ensures
        g.segment(a, c1 + c2, w),
{
    let c = c1 + c2;
    assert forall|k: int| #![trigger c[k]] 0 <= k < c.len() implies {
        &&& resolved_at(g.instrs@, g.label_pos@, g.fixups@, a + k) == c[k]
        &&& (label_of(g.fixups@, a + k) matches Some(l) ==> l >= w && g.label_pos@[l as int] is Some)
    } by {
        if k < c1.len() {
            assert(c[k] == c1[k]);
        } else {
            assert(c[k] == c2[k - c1.len()]);
            assert(a + k == (a + c1.len()) + (k - c1.len()));
        }
    }
}

/// A patched branch at `b` whose label is bound.
proof fn lemma_branch_segment(g: &Codegen, b: int, l: usize, pos: usize, expected: Emitted, w: int)
    requires
        0 <= b < g.instrs@.len(),
        label_of(g.fixups@, b) == Some(l),
        g.label_pos@[l as int] == Some(pos),
        l >= w,
        expected == (Emitted { instr: with_offset(g.instrs@[b].instr, words(pos - b)), ..g.instrs@[b] }),
    ensures
        g.segment(b, seq![expected], w),
{
    assert forall|k: int| #![trigger seq![expected][k]] 0 <= k < 1 implies {
        &&& resolved_at(g.instrs@, g.label_pos@, g.fixups@, b + k) == seq![expected][k]
        &&& (label_of(g.fixups@, b + k) matches Some(l2) ==> l2 >= w && g.label_pos@[l2 as int] is Some)
    } by {
        assert(k == 0);
        assert(b + k == b);
    }
}

/// A statement that began in `s0`, allocated two labels (`s1`), emitted the
/// plain code `c` (`s2`), and a branch to `l` at the end of `c` (`s3`).
spec fn opened_with_branch(
    s0: &Codegen,
    s1: &Codegen,
    s2: &Codegen,
    s3: &Codegen,
    c: Seq<Emitted>,
    branch: Emitted,
    l: usize,
) -> bool {
    &&& s0.wf()
    &&& s1.label_pos@.len() == s0.label_pos@.len() + 2
    &&& forall|l: int| 0 <= l < s0.label_pos@.len() ==> s1.label_pos@[l] == s0.label_pos@[l]
    &&& s1.instrs@ == s0.instrs@
    &&& s1.fixups@ == s0.fixups@
    &&& s2.wf()
    &&& s2.instrs@ == s1.instrs@ + c
    &&& s2.fixups@ == s1.fixups@
    &&& s2.label_pos@ == s1.label_pos@
    &&& s3.wf()
    &&& s3.instrs@ == s2.instrs@.push(branch)
    &&& s3.fixups@ == s2.fixups@.push((s2.instrs@.len() as usize, l))
    &&& s3.label_pos@ == s2.label_pos@
}

/// `n` is `o` with label `l` bound to the next instruction.
spec fn bound_next(n: &Codegen, o: &Codegen, l: usize) -> bool {
    &&& n.instrs@ == o.instrs@
    &&& n.fixups@ == o.fixups@
    &&& n.label_pos@ == o.label_pos@.update(l as int, Some(o.instrs@.len() as usize))
    &&& n.wf()
}

proof fn lemma_opened(s0: &Codegen, s1: &Codegen, s2: &Codegen, s3: &Codegen, c: Seq<Emitted>, branch: Emitted, l: usize)
    requires
        opened_with_branch(s0, s1, s2, s3, c, branch, l),
    ensures
        s3.extends(s0),
        s3.segment(s0.instrs@.len() as int, c, s0.label_pos@.len() + 2int),
        label_of(s3.fixups@, s2.instrs@.len() as int) == Some(l),
        s3.instrs@[s2.instrs@.len() as int] == branch,
        s3.instrs@.len() == s0.instrs@.len() + c.len() + 1,
        s3.label_pos@.len() == s0.label_pos@.len() + 2,
        s3.fixups@.len() == s0.fixups@.len() + 1,
        s3.fixups@[s0.fixups@.len() as int] == (s2.instrs@.len() as usize, l),
{
    assert forall|j: int| 0 <= j < s2.fixups@.len() implies s2.fixups@[j].0 < s0.instrs@.len() by {
        assert(s0.fixups@[j] == s0.fixups@[j]);
    }
    assert forall|k: int| 0 <= k < c.len() implies s2.instrs@[s0.instrs@.len() + k] == c[k] by {}
    lemma_plain_segment(s2, s0.instrs@.len() as int, c, s0.label_pos@.len() + 2int);
    assert(s3.extends(s2));
    lemma_extends_segment(s3, s2, s0.instrs@.len() as int, c, s0.label_pos@.len() + 2int);
    assert(s3.extends(s0));
}

/// `if (cond) { then }`: `c ++ [beq] ++ t` with the branch over the body.
proof fn lemma_if_done(
    s0: &Codegen,
    s1: &Codegen,
    s2: &Codegen,
    s3: &Codegen,
    s4: &Codegen,
    sf: &Codegen,
    c: Seq<Emitted>,
    t: Seq<Emitted>,
    l_else: usize,
    beq0: Emitted,
    beq: Emitted,
)
    requires
        l_else == s0.label_pos@.len(),
        opened_with_branch(s0, s1, s2, s3, c, beq0, l_else),
        s4.emitted_block(s3, t),
        bound_next(sf, s4, l_else),
        sf.temp_sp == s0.temp_sp,
        jump_offset(beq0.instr) is Some,
        beq == (Emitted {
            instr: with_offset(beq0.instr, words(t.len() + 1int)),
            ..beq0
        }),
    ensures
        sf.emitted_block(s0, c + seq![beq] + t),
{
    let w0 = s0.label_pos@.len() as int;
    let w1 = w0 + 2;
    let base = s0.instrs@.len() as int;
    let b = s2.instrs@.len() as int;
    lemma_opened(s0, s1, s2, s3, c, beq0, l_else);
    // the condition
    lemma_extends_segment(s4, s3, base, c, w1);
    lemma_bind_segment(sf, s4, l_else as int, s4.instrs@.len() as usize, base, c, w1);
    lemma_segment_lower(sf, base, c, w1, w0);
    // the branch
    lemma_extends_frame(s4, s3, b);
    lemma_branch_segment(sf, b, l_else, s4.instrs@.len() as usize, beq, w0);
    // the body
    lemma_bind_segment(sf, s4, l_else as int, s4.instrs@.len() as usize, b + 1, t, w1);
    lemma_segment_lower(sf, b + 1, t, w1, w0);
    lemma_segment_concat(sf, base, c, seq![beq], w0);
    lemma_segment_concat(sf, base, c + seq![beq], t, w0);
    // the frame
    lemma_extends_trans(s4, s3, s0);
    lemma_extends_bind(sf, s4, s0, l_else as int, s4.instrs@.len() as usize);
    assert forall|j: int|
        #![trigger sf.fixups@[j]]
        s0.fixups@.len() <= j < sf.fixups@.len() implies sf.fixups@[j].1 >= s0.label_pos@.len()
        && sf.label_pos@[sf.fixups@[j].1 as int] is Some && sf.fixup_on_jump(j) by {
        if j >= s3.fixups@.len() {
            assert(sf.fixups@[j] == s4.fixups@[j]);
            assert(s4.fixup_on_jump(j));
            assert(s4.fixups@[j].0 < s4.instrs@.len());
        } else {
            assert(sf.fixups@[j] == s3.fixups@[j]);
            assert(sf.instrs@[b] == beq0);
        }
    }
}

/// `if (cond) { then } else { els }`:
/// `c ++ [beq] ++ t ++ [jal] ++ e`, the branch to the else part and the jump
/// over it.
#[verifier::spinoff_prover]
#[verifier::rlimit(40)]
proof fn lemma_if_else_done(
    s0: &Codegen,
    s1: &Codegen,
    s2: &Codegen,
    s3: &Codegen,
    s4: &Codegen,
    s5: &Codegen,
    s6: &Codegen,
    s7: &Codegen,
    sf: &Codegen,
    c: Seq<Emitted>,
    t: Seq<Emitted>,
    e: Seq<Emitted>,
    l_else: usize,
    l_end: usize,
    beq0: Emitted,
    beq: Emitted,
    jal0: Emitted,
    jal: Emitted,
)
    requires
        l_else == s0.label_pos@.len(),
        l_end == l_else + 1,
        opened_with_branch(s0, s1, s2, s3, c, beq0, l_else),
        s4.emitted_block(s3, t),
        s5.wf(),
        s5.instrs@ == s4.instrs@.push(jal0),
        s5.fixups@ == s4.fixups@.push((s4.instrs@.len() as usize, l_end)),
        s5.label_pos@ == s4.label_pos@,
        bound_next(s6, s5, l_else),
        s7.emitted_block(s6, e),
        bound_next(sf, s7, l_end),
        sf.temp_sp == s0.temp_sp,
        jump_offset(beq0.instr) is Some,
        jump_offset(jal0.instr) is Some,
        beq == (Emitted {
            instr: with_offset(beq0.instr, words(t.len() + 2int)),
            ..beq0
        }),
        jal == (Emitted {
            instr: with_offset(jal0.instr, words(e.len() + 1int)),
            ..jal0
        }),
    ensures
        sf.emitted_block(s0, c + seq![beq] + t + seq![jal] + e),
{
    let w0 = s0.label_pos@.len() as int;
    let w1 = w0 + 2;
    let base = s0.instrs@.len() as int;
    let b = s2.instrs@.len() as int;
    let j = s4.instrs@.len() as int;
    let else_at = s5.instrs@.len() as usize;
    let end_at = s7.instrs@.len() as usize;
    lemma_opened(s0, s1, s2, s3, c, beq0, l_else);
    assert(s5.extends(s4));
    // the condition, carried to the end
    lemma_extends_segment(s4, s3, base, c, w1);
    lemma_extends_segment(s5, s4, base, c, w1);
    lemma_bind_segment(s6, s5, l_else as int, else_at, base, c, w1);
    lemma_extends_segment(s7, s6, base, c, w1);
    lemma_bind_segment(sf, s7, l_end as int, end_at, base, c, w1);
    lemma_segment_lower(sf, base, c, w1, w0);
    // the branch to the else part
    lemma_extends_frame(s4, s3, b);
    lemma_extends_frame(s5, s4, b);
    lemma_extends_frame(s7, s6, b);
    lemma_branch_segment(sf, b, l_else, else_at, beq, w0);
    // the then part
    lemma_extends_segment(s5, s4, b + 1, t, w1);
    lemma_bind_segment(s6, s5, l_else as int, else_at, b + 1, t, w1);
    lemma_extends_segment(s7, s6, b + 1, t, w1);
    lemma_bind_segment(sf, s7, l_end as int, end_at, b + 1, t, w1);
    lemma_segment_lower(sf, b + 1, t, w1, w0);
    // the jump over the else part
    lemma_extends_frame(s7, s6, j);
    lemma_branch_segment(sf, j, l_end, end_at, jal, w0);
    // the else part
    let w2 = s6.label_pos@.len() as int;
    lemma_bind_segment(sf, s7, l_end as int, end_at, j + 1, e, w2);
    lemma_segment_lower(sf, j + 1, e, w2, w0);
    lemma_segment_concat(sf, base, c, seq![beq], w0);
    lemma_segment_concat(sf, base, c + seq![beq], t, w0);
    lemma_segment_concat(sf, base, c + seq![beq] + t, seq![jal], w0);
    lemma_segment_concat(sf, base, c + seq![beq] + t + seq![jal], e, w0);
    // the frame
    lemma_extends_trans(s4, s3, s0);
    lemma_extends_trans(s5, s4, s0);
    lemma_extends_bind(s6, s5, s0, l_else as int, else_at);
    lemma_extends_trans(s7, s6, s0);
    lemma_extends_bind(sf, s7, s0, l_end as int, end_at);
    assert forall|k: int|
        #![trigger sf.fixups@[k]]
        s0.fixups@.len() <= k < sf.fixups@.len() implies sf.fixups@[k].1 >= s0.label_pos@.len()
        && sf.label_pos@[sf.fixups@[k].1 as int] is Some && sf.fixup_on_jump(k) by {
        if k >= s6.fixups@.len() {
            assert(sf.fixups@[k] == s7.fixups@[k]);
            assert(s7.fixup_on_jump(k));
        } else if k >= s4.fixups@.len() {
            assert(sf.fixups@[k] == s5.fixups@[k]);
            assert(sf.instrs@[j] == jal0);
        } else if k >= s3.fixups@.len() {
            assert(sf.fixups@[k] == s4.fixups@[k]);
            assert(s4.fixups@[k].1 < s4.label_pos@.len());
            assert(s4.fixup_on_jump(k));
            assert(s4.fixups@[k].0 < s4.instrs@.len());
        } else {
            assert(sf.fixups@[k] == s3.fixups@[k]);
            assert(sf.instrs@[b] == beq0);
        }
    }
}

/// `while (cond) { body }`: `c ++ [beq] ++ b ++ [jal]`, the branch out of
/// the loop and the jump back to the condition.
#[verifier::spinoff_prover]
proof fn lemma_while_done(
    s0: &Codegen,
    s1: &Codegen,
    s2: &Codegen,
    s3: &Codegen,
    s4: &Codegen,
    s5: &Codegen,
    s6: &Codegen,
    sf: &Codegen,
    c: Seq<Emitted>,
    body: Seq<Emitted>,
    l_top: usize,
    l_end: usize,
    beq0: Emitted,
    beq: Emitted,
    jal0: Emitted,
    jal: Emitted,
)
    requires
        l_top == s0.label_pos@.len(),
        l_end == l_top + 1,
        s0.wf(),
        s1.label_pos@ == s0.label_pos@.push(None).push(None),
        s1.instrs@ == s0.instrs@,
        s1.fixups@ == s0.fixups@,
        bound_next(s2, s1, l_top),
        opened_with_branch(s0, s2, s3, s4, c, beq0, l_end),
        s5.emitted_block(s4, body),
        s6.wf(),
        s6.instrs@ == s5.instrs@.push(jal0),
        s6.fixups@ == s5.fixups@.push((s5.instrs@.len() as usize, l_top)),
        s6.label_pos@ == s5.label_pos@,
        bound_next(sf, s6, l_end),
        sf.temp_sp == s0.temp_sp,
        jump_offset(beq0.instr) is Some,
        jump_offset(jal0.instr) is Some,
        beq == (Emitted {
            instr: with_offset(beq0.instr, words(body.len() + 2int)),
            ..beq0
        }),
        jal == (Emitted {
            instr: with_offset(jal0.instr, words(-(c.len() + 1 + body.len()))),
            ..jal0
        }),
    ensures
        sf.emitted_block(s0, c + seq![beq] + body + seq![jal]),
{
    let w0 = s0.label_pos@.len() as int;
    let w1 = w0 + 2;
    let base = s0.instrs@.len() as int;
    let b = s3.instrs@.len() as int;
    let j = s5.instrs@.len() as int;
    let end_at = s6.instrs@.len() as usize;
    lemma_opened(s0, s2, s3, s4, c, beq0, l_end);
    assert(s6.extends(s5));
    assert(s5.label_pos@[l_top as int] == s4.label_pos@[l_top as int]);
    // the condition, carried to the end
    lemma_extends_segment(s5, s4, base, c, w1);
    lemma_extends_segment(s6, s5, base, c, w1);
    lemma_bind_segment(sf, s6, l_end as int, end_at, base, c, w1);
    lemma_segment_lower(sf, base, c, w1, w0);
    // the branch out of the loop
    lemma_extends_frame(s5, s4, b);
    lemma_extends_frame(s6, s5, b);
    lemma_branch_segment(sf, b, l_end, end_at, beq, w0);
    // the body
    lemma_extends_segment(s6, s5, b + 1, body, w1);
    lemma_bind_segment(sf, s6, l_end as int, end_at, b + 1, body, w1);
    lemma_segment_lower(sf, b + 1, body, w1, w0);
    // the jump back to the condition
    assert(label_of(s6.fixups@, j) == Some(l_top));
    lemma_branch_segment(sf, j, l_top, base as usize, jal, w0);
    lemma_segment_concat(sf, base, c, seq![beq], w0);
    lemma_segment_concat(sf, base, c + seq![beq], body, w0);
    lemma_segment_concat(sf, base, c + seq![beq] + body, seq![jal], w0);
    // the frame
    lemma_extends_trans(s5, s4, s0);
    lemma_extends_trans(s6, s5, s0);
    lemma_extends_bind(sf, s6, s0, l_end as int, end_at);
    assert forall|k: int|
        #![trigger sf.fixups@[k]]
        s0.fixups@.len() <= k < sf.fixups@.len() implies sf.fixups@[k].1 >= s0.label_pos@.len()
        && sf.label_pos@[sf.fixups@[k].1 as int] is Some && sf.fixup_on_jump(k) by {
        if k >= s5.fixups@.len() {
            assert(sf.fixups@[k] == s6.fixups@[k]);
            assert(sf.instrs@[j] == jal0);
        } else if k >= s4.fixups@.len() {
            assert(sf.fixups@[k] == s5.fixups@[k]);
            assert(s5.fixups@[k].1 < s5.label_pos@.len());
            assert(s5.fixup_on_jump(k));
            assert(s5.fixups@[k].0 < s5.instrs@.len());
        } else {
            assert(sf.fixups@[k] == s4.fixups@[k]);
            assert(sf.instrs@[b] == beq0);
        }
    }
}

/// Plain code, with no branch, emitted between `o` and `n`.
proof fn lemma_plain_block(n: &Codegen, o: &Codegen, code: Seq<Emitted>)
    requires
        o.wf(),
        n.wf(),
        n.instrs@ == o.instrs@ + code,
        n.fixups@ == o.fixups@,
        n.label_pos@ == o.label_pos@,
        n.temp_sp == o.temp_sp,
    ensures
        n.emitted_block(o, code),
{
    assert forall|k: int| 0 <= k < code.len() implies n.instrs@[o.instrs@.len() + k] == code[k] by {}
    lemma_plain_segment(n, o.instrs@.len() as int, code, o.label_pos@.len() as int);
}

/// Nothing emitted yet.
proof fn lemma_block_empty(g: &Codegen)
    requires
        g.wf(),
    ensures
        g.emitted_block(g, Seq::empty()),
{
}

/// Two blocks one after the other make one block.
proof fn lemma_block_concat(s0: &Codegen, s1: &Codegen, s2: &Codegen, c1: Seq<Emitted>, c2: Seq<Emitted>)
    requires
        s1.emitted_block(s0, c1),
        s2.emitted_block(s1, c2),
    ensures
        s2.emitted_block(s0, c1 + c2),
{
    let w0 = s0.label_pos@.len() as int;
    lemma_extends_segment(s2, s1, s0.instrs@.len() as int, c1, w0);
    lemma_segment_lower(s2, s1.instrs@.len() as int, c2, s1.label_pos@.len() as int, w0);
    lemma_segment_concat(s2, s0.instrs@.len() as int, c1, c2, w0);
    lemma_extends_trans(s2, s1, s0);
    assert forall|k: int|
        #![trigger s2.fixups@[k]]
        s0.fixups@.len() <= k < s2.fixups@.len() implies s2.fixups@[k].1 >= s0.label_pos@.len()
        && s2.label_pos@[s2.fixups@[k].1 as int] is Some && s2.fixup_on_jump(k) by {
        if k < s1.fixups@.len() {
            assert(s2.fixups@[k] == s1.fixups@[k]);
            assert(s1.fixups@[k].1 < s1.label_pos@.len());
            assert(s1.fixup_on_jump(k));
            assert(s1.fixups@[k].0 < s1.instrs@.len());
        }
    }
}

impl Codegen {
    // ---- statements -------------------------------------------------------

    fn stmt(&mut self, stmt: &Stmt) -> (res: Result<(), CompileError>)
        requires
            old(self).wf(),
            old(self).temp_sp == 0,
            old(self).var_order@.len() + 2 <= old(self).instrs@.len(),
            old(self).instrs@.len() + 3 * stmt_size(stmt_view(*stmt)) <= MAX_INSTRS,
        ensures
            match stmt_code(stmt_view(*stmt), old(self).vars()) {
                Ok((code, vars1)) => {
                    &&& res is Ok
                    &&& final(self).emitted_block(old(self), code)
                    &&& final(self).vars() == vars1
                    &&& final(self).var_order@.len() + 2 <= final(self).instrs@.len()
                },
                Err(e) => res matches Err(x) && x@ == e,
            },
        decreases stmt_size(stmt_view(*stmt)), 0nat,
    {
        let ghost s0 = *self;
        let ghost sv = stmt_view(*stmt);
        proof {
            lemma_stmt_code_len(sv, s0.vars());
        }
        match &stmt.kind {
            StmtKind::Let { name, init } => {
                let slot = self.declare(name, stmt.span)?;
                proof {
                    lemma_expr_code_len(expr_view(*init), 0, self.vars());
                }
                let r = self.expr(init)?;
                self.emit(
                    Instr::Sw { rs1: GP, rs2: r, imm: (slot * 4) as i32 },
                    Some(stmt.id),
                    Some(stmt.span),
                );
                self.pop_temp();
                proof {
                    lemma_plain_block(self, &s0, stmt_code(sv, s0.vars())->Ok_0.0);
                }
            },
            StmtKind::Assign { name, value } => {
                let slot = self.lookup(name, stmt.span)?;
                proof {
                    lemma_find_var(self.vars(), name@, 0);
                    lemma_expr_code_len(expr_view(*value), 0, self.vars());
                }
                let r = self.expr(value)?;
                self.emit(
                    Instr::Sw { rs1: GP, rs2: r, imm: (slot * 4) as i32 },
                    Some(stmt.id),
                    Some(stmt.span),
                );
                self.pop_temp();
                proof {
                    lemma_plain_block(self, &s0, stmt_code(sv, s0.vars())->Ok_0.0);
                }
            },
            StmtKind::Print { value } => {
                proof {
                    lemma_expr_code_len(expr_view(*value), 0, self.vars());
                }
                let r = self.expr(value)?;
                // a0 = value; a7 = print-int; ecall
                self.emit(Instr::Addi { rd: A0, rs1: r, imm: 0 }, Some(stmt.id), Some(stmt.span));
                self.pop_temp();
                self.emit(
                    Instr::Addi { rd: A7, rs1: ZERO, imm: SYSCALL_PRINT_INT },
                    Some(stmt.id),
                    Some(stmt.span),
                );
                self.emit(Instr::Ecall, Some(stmt.id), Some(stmt.span));
                proof {
                    let code = stmt_code(sv, s0.vars())->Ok_0.0;
                    assert(self.instrs@ =~= s0.instrs@ + code);
                    lemma_plain_block(self, &s0, code);
                }
            },
            StmtKind::If { cond, then_body, else_body } => {
                let l_else = self.new_label();
                let l_end = self.new_label();
                let ghost s1 = *self;
                proof {
                    lemma_expr_code_len(expr_view(*cond), 0, self.vars());
                }
                let r = self.expr(cond)?;
                let ghost s2 = *self;
                let ghost c = expr_code(expr_view(*cond), 0, s0.vars())->Ok_0;
                // condition is 0 or 1 in r: skip the then-branch when false
                self.emit_to_label(Instr::Beq { rs1: r, rs2: ZERO, offset: 0 }, l_else, stmt.id, cond.span);
                self.pop_temp();
                let ghost s3 = *self;
                let ghost beq0 = tagged(Instr::Beq { rs1: r, rs2: ZERO, offset: 0 }, stmt.id, cond.span);
                proof {
                    lemma_stmts_code_len(stmts_view(then_body@), s0.vars());
                }
                self.stmts(then_body.as_slice())?;
                let ghost s4 = *self;
                let ghost t = stmts_code(stmts_view(then_body@), s0.vars())->Ok_0.0;
                match else_body {
                    Some(else_body) => {
                        self.emit_to_label(Instr::Jal { rd: ZERO, offset: 0 }, l_end, stmt.id, stmt.span);
                        let ghost s5 = *self;
                        self.bind(l_else);
                        let ghost s6 = *self;
                        proof {
                            lemma_stmts_code_len(stmts_view(else_body@), s4.vars());
                        }
                        self.stmts(else_body.as_slice())?;
                        let ghost s7 = *self;
                        self.bind(l_end);
                        proof {
                            let e = stmts_code(stmts_view(else_body@), s4.vars())->Ok_0.0;
                            lemma_if_else_done(
                                &s0,
                                &s1,
                                &s2,
                                &s3,
                                &s4,
                                &s5,
                                &s6,
                                &s7,
                                self,
                                c,
                                t,
                                e,
                                l_else,
                                l_end,
                                beq0,
                                tagged(
                                    Instr::Beq { rs1: r, rs2: ZERO, offset: words(t.len() + 2int) },
                                    stmt.id,
                                    cond.span,
                                ),
                                tagged(Instr::Jal { rd: ZERO, offset: 0 }, stmt.id, stmt.span),
                                tagged(Instr::Jal { rd: ZERO, offset: words(e.len() + 1int) }, stmt.id, stmt.span),
                            );
                        }
                    },
                    None => {
                        self.bind(l_else);
                        proof {
                            lemma_if_done(
                                &s0,
                                &s1,
                                &s2,
                                &s3,
                                &s4,
                                self,
                                c,
                                t,
                                l_else,
                                beq0,
                                tagged(
                                    Instr::Beq { rs1: r, rs2: ZERO, offset: words(t.len() + 1int) },
                                    stmt.id,
                                    cond.span,
                                ),
                            );
                        }
                    },
                }
            },
            StmtKind::While { cond, body } => {
                let l_top = self.new_label();
                let l_end = self.new_label();
                let ghost s1 = *self;
                self.bind(l_top);
                let ghost s2 = *self;
                proof {
                    lemma_expr_code_len(expr_view(*cond), 0, self.vars());
                }
                let r = self.expr(cond)?;
                let ghost s3 = *self;
                let ghost c = expr_code(expr_view(*cond), 0, s0.vars())->Ok_0;
                self.emit_to_label(Instr::Beq { rs1: r, rs2: ZERO, offset: 0 }, l_end, stmt.id, cond.span);
                self.pop_temp();
                let ghost s4 = *self;
                proof {
                    lemma_stmts_code_len(stmts_view(body@), s0.vars());
                }
                self.stmts(body.as_slice())?;
                let ghost s5 = *self;
                let ghost b = stmts_code(stmts_view(body@), s0.vars())->Ok_0.0;
                self.emit_to_label(Instr::Jal { rd: ZERO, offset: 0 }, l_top, stmt.id, stmt.span);
                let ghost s6 = *self;
                self.bind(l_end);
                proof {
                    lemma_while_done(
                        &s0,
                        &s1,
                        &s2,
                        &s3,
                        &s4,
                        &s5,
                        &s6,
                        self,
                        c,
                        b,
                        l_top,
                        l_end,
                        tagged(Instr::Beq { rs1: r, rs2: ZERO, offset: 0 }, stmt.id, cond.span),
                        tagged(
                            Instr::Beq { rs1: r, rs2: ZERO, offset: words(b.len() + 2int) },
                            stmt.id,
                            cond.span,
                        ),
                        tagged(Instr::Jal { rd: ZERO, offset: 0 }, stmt.id, stmt.span),
                        tagged(
                            Instr::Jal { rd: ZERO, offset: words(-(c.len() + 1 + b.len())) },
                            stmt.id,
                            stmt.span,
                        ),
                    );
                }
            },
        }
        Ok(())
    }

    /// The statements of `ss`, in order.
    fn stmts(&mut self, ss: &[Stmt]) -> (res: Result<(), CompileError>)
        requires
            old(self).wf(),
            old(self).temp_sp == 0,
            old(self).var_order@.len() + 2 <= old(self).instrs@.len(),
            old(self).instrs@.len() + 3 * stmts_size(stmts_view(ss@)) <= MAX_INSTRS,
        ensures
            match stmts_code(stmts_view(ss@), old(self).vars()) {
                Ok((code, vars1)) => {
                    &&& res is Ok
                    &&& final(self).emitted_block(old(self), code)
                    &&& final(self).vars() == vars1
                    &&& final(self).var_order@.len() + 2 <= final(self).instrs@.len()
                },
                Err(e) => res matches Err(x) && x@ == e,
            },
        decreases stmts_size(stmts_view(ss@)), 1nat,
    {
        let ghost sv = stmts_view(ss@);
        let ghost mut done: Seq<Emitted> = Seq::empty();
        proof {
            lemma_stmts_view(ss@);
            lemma_block_empty(self);
            assert(sv.skip(0) =~= sv);
        }
        let mut i: usize = 0;
        while i < ss.len()
            invariant
                i <= ss@.len(),
                sv == stmts_view(ss@),
                sv.len() == ss@.len(),
                forall|k: int| 0 <= k < ss@.len() ==> #[trigger] sv[k] == stmt_view(ss@[k]),
                self.emitted_block(old(self), done),
                self.temp_sp == 0,
                self.var_order@.len() + 2 <= self.instrs@.len(),
                self.instrs@.len() + 3 * stmts_size(sv.skip(i as int)) <= MAX_INSTRS,
                stmts_size(sv.skip(i as int)) <= stmts_size(sv),
                match stmts_code(sv.skip(i as int), self.vars()) {
                    Ok((rest, v)) => stmts_code(sv, old(self).vars()) == Ok::<
                        (Seq<Emitted>, Seq<Seq<char>>),
                        ErrorView,
                    >((done + rest, v)),
                    Err(e) => stmts_code(sv, old(self).vars()) == Err::<
                        (Seq<Emitted>, Seq<Seq<char>>),
                        ErrorView,
                    >(e),
                },
            decreases ss@.len() - i,
        {
            let ghost before = *self;
            proof {
                assert(sv.skip(i as int)[0] == sv[i as int]);
                assert(sv.skip(i as int).drop_first() =~= sv.skip(i as int + 1));
                lemma_stmt_code_len(sv[i as int], self.vars());
            }
            self.stmt(&ss[i])?;
            proof {
                let c = stmt_code(sv[i as int], before.vars())->Ok_0.0;
                lemma_block_concat(old(self), &before, self, done, c);
                if let Ok((rest, v)) = stmts_code(sv.skip(i as int + 1), self.vars()) {
                    assert(done + (c + rest) =~= (done + c) + rest);
                }
                done = done + c;
            }
            i = i + 1;
        }
        proof {
            assert(sv.skip(i as int) =~= Seq::<StmtV>::empty());
        }
        Ok(())
    }
}

/// `out` holds the instructions `code`, the data section right after them,
/// and the variables `vars` with their slot addresses in declaration order.
pub open spec fn output_is(out: CodegenOutput, code: Seq<Emitted>, vars: Seq<Seq<char>>) -> bool {
    &&& out.instrs@ == code
    &&& out.data_base == code.len() * 4
    &&& out.vars@.len() == vars.len()
    &&& forall|i: int|
        0 <= i < vars.len() ==> #[trigger] out.vars@[i].name@ == vars[i] && out.vars@[i].addr
            == out.data_base + 4 * i
}

/// Compile a parsed program to instructions tagged with their AST node,
/// with one data slot per variable right after the code.
#[verifier::spinoff_prover]
#[verifier::rlimit(30)]
pub fn codegen(program: &[Stmt]) -> (res: Result<CodegenOutput, CompileError>)
    requires
        3 * stmts_size(stmts_view(program@)) + 4 <= MAX_INSTRS,
    ensures
        match program_code(stmts_view(program@)) {
            Ok((code, vars)) => res matches Ok(out) && output_is(out, code, vars),
            Err(e) => res matches Err(x) && x@ == e,
        },
{
    let mut g = Codegen {
        instrs: Vec::new(),
        var_order: Vec::new(),
        temp_sp: 0,
        label_pos: Vec::new(),
        fixups: Vec::new(),
    };
    // Prologue: load the data-section base address into gp.
    // Emitted with placeholder immediates, patched once code size is known.
    g.emit(Instr::Lui { rd: GP, imm: 0 }, None, None);
    g.emit(Instr::Addi { rd: GP, rs1: GP, imm: 0 }, None, None);
    let ghost s0 = g;
    proof {
        assert(g.vars() =~= Seq::<Seq<char>>::empty());
        lemma_stmts_code_len(stmts_view(program@), Seq::empty());
    }
    if let Err(e) = g.stmts(program) {
        proof {
            assert(program_code(stmts_view(program@)) == Err::<(Seq<Emitted>, Seq<Seq<char>>), ErrorView>(e@));
        }
        return Err(e);
    }
    let ghost s1 = g;
    let ghost body = stmts_code(stmts_view(program@), Seq::empty())->Ok_0.0;

    // Epilogue: exit ecall so execution halts cleanly.
    g.emit(Instr::Addi { rd: A7, rs1: ZERO, imm: SYSCALL_EXIT }, None, None);
    g.emit(Instr::Ecall, None, None);
    let ghost s2 = g;
    proof {
        assert(s2.extends(&s1));
        lemma_extends_segment(&s2, &s1, 2, body, 0);
        assert forall|j: int| #![trigger s2.fixups@[j]] 0 <= j < s2.fixups@.len() implies s2.label_pos@[s2.fixups@[j].1 as int] is Some by {
            assert(s1.fixups@[j] == s2.fixups@[j]);
        }
    }
    g.resolve_fixups();

    // Code layout is final; the data section starts right after the code.
    let data_base = (g.instrs.len() * 4) as u32;
    let (hi, lo) = hi_lo(data_base as i32);
    g.instrs.set(0, Emitted { instr: Instr::Lui { rd: GP, imm: hi }, node: None, span: None });
    g.instrs.set(1, Emitted { instr: Instr::Addi { rd: GP, rs1: GP, imm: lo }, node: None, span: None });

    let ghost pv = program_code(stmts_view(program@))->Ok_0.1;
    proof {
        assert(stmts_code(stmts_view(program@), Seq::empty()) is Ok);
        assert(pv == g.vars());
    }
    let mut vars: Vec<VarSlot> = Vec::new();
    let mut i: usize = 0;
    while i < g.var_order.len()
        invariant
            i <= g.var_order@.len(),
            g.var_order@.len() + 2 <= g.instrs@.len(),
            g.instrs@.len() <= MAX_INSTRS,
            data_base == g.instrs@.len() * 4,
            pv == g.vars(),
            vars@.len() == i,
            forall|k: int|
                0 <= k < i ==> #[trigger] vars@[k].name@ == pv[k] && vars@[k].addr == data_base + 4 * k,
        decreases g.var_order@.len() - i,
    {
        vars.push(VarSlot { name: g.var_order[i].clone(), addr: data_base + (i as u32) * 4 });
        proof {
            assert(pv[i as int] == g.var_order@[i as int]@);
        }
        i = i + 1;
    }
    proof {
        let code = program_code(stmts_view(program@))->Ok_0.0;
        assert forall|k: int| 2 <= k < g.instrs@.len() implies #[trigger] g.instrs@[k] == code[k] by {
            if k < 2 + body.len() {
                assert(code[k] == body[k - 2]);
                assert(2 + (k - 2) == k);
            } else {
                lemma_label_of_none(s2.fixups@, k);
            }
        }
        assert(g.instrs@ =~= code);
    }
    let out = CodegenOutput { instrs: g.instrs, vars, data_base };
    proof {
        let (code, pv2) = program_code(stmts_view(program@))->Ok_0;
        assert(program_code(stmts_view(program@)) == Ok::<(Seq<Emitted>, Seq<Seq<char>>), ErrorView>((code, pv2)));
        assert(pv2 == pv);
        assert(out.instrs@ == code);
        assert(out.data_base == code.len() * 4);
        assert(out.vars@.len() == pv.len());
        assert forall|k: int| 0 <= k < pv.len() implies #[trigger] out.vars@[k].name@ == pv[k]
            && out.vars@[k].addr == out.data_base + 4 * k by {
            assert(vars@[k].name@ == pv[k]);
        }
        assert(output_is(out, code, pv));
    }
    Ok(out)
}

// ---- shape of the generated code ------------------------------------------------

/// Every instruction of `code` names registers x0..x31 only.
pub open spec fn regs_ok(code: Seq<Emitted>) -> bool {
    forall|k: int| 0 <= k < code.len() ==> regs_in_range(#[trigger] code[k].instr)
}

/// The byte offset of a branch or jump.
pub open spec fn jump_offset(instr: Instr) -> Option<i32> {
    match instr {
        Instr::Beq { offset, .. } | Instr::Bne { offset, .. } | Instr::Blt { offset, .. }
        | Instr::Bge { offset, .. } | Instr::Jal { offset, .. } => Some(offset),
        _ => None,
    }
}

/// If instruction `k` of `c` is a branch or jump, it moves by whole
/// instructions to an instruction of `c` or to just past its end.
pub open spec fn lands_within(c: Seq<Emitted>, k: int) -> bool {
    match jump_offset(c[k].instr) {
        Some(off) => off % 4 == 0 && 0 <= k + off / 4 <= c.len(),
        None => true,
    }
}

/// Instruction `k` of statement code names real registers, carries the AST
/// node and source span it came from, and branches within the code.
pub open spec fn instr_ok(c: Seq<Emitted>, k: int) -> bool {
    &&& regs_in_range(c[k].instr)
    &&& c[k].node is Some
    &&& c[k].span is Some
    &&& lands_within(c, k)
}

pub open spec fn body_ok(c: Seq<Emitted>) -> bool {
    forall|k: int| 0 <= k < c.len() ==> #[trigger] instr_ok(c, k)
}

proof fn lemma_body_ok_concat(c1: Seq<Emitted>, c2: Seq<Emitted>)
    requires
        body_ok(c1),
        body_ok(c2),
    ensures
        body_ok(c1 + c2),
{
    let c = c1 + c2;
    assert forall|k: int| 0 <= k < c.len() implies #[trigger] instr_ok(c, k) by {
        if k < c1.len() {
            assert(instr_ok(c1, k));
            assert(c[k] == c1[k]);
        } else {
            assert(instr_ok(c2, k - c1.len()));
            assert(c[k] == c2[k - c1.len()]);
        }
    }
}

pub(crate) proof fn lemma_words(n: int)
    requires
        -0x2000_0000 <= n < 0x2000_0000,
    ensures
        words(n) == n * 4,
        words(n) % 4 == 0,
        words(n) / 4 == n,
{
}

proof fn lemma_expr_code_ok(e: ExprV, sp: nat, vars: Seq<Seq<char>>)
    ensures
        expr_code(e, sp, vars) matches Ok(c) ==> body_ok(c),
    decreases e,
{
    match e.kind {
        ExprKindV::Unary { op, operand } => {
            lemma_expr_code_ok(*operand, sp, vars);
            if let Ok(c) = expr_code(*operand, sp, vars) {
                let r = temp_reg(sp as int);
                let neg = seq![tagged(Instr::Sub { rd: r, rs1: ZERO, rs2: r }, e.id, e.span)];
                assert(instr_ok(neg, 0));
                lemma_body_ok_concat(c, neg);
                assert(c.push(neg[0]) =~= c + neg);
            }
        },
        ExprKindV::Binary { op, lhs, rhs } => {
            lemma_expr_code_ok(*lhs, sp, vars);
            lemma_expr_code_ok(*rhs, sp + 1, vars);
            if let Ok(c1) = expr_code(*lhs, sp, vars) {
                if let Ok(c2) = expr_code(*rhs, sp + 1, vars) {
                    let b = binop_code(op, temp_reg(sp as int), temp_reg(sp + 1int), e.id, e.span);
                    assert(body_ok(b));
                    lemma_body_ok_concat(c1, c2);
                    lemma_body_ok_concat(c1 + c2, b);
                }
            }
        },
        ExprKindV::Int { value } => {
            if let Ok(c) = expr_code(e, sp, vars) {
                assert(body_ok(c));
            }
        },
        ExprKindV::Var { name } => {
            if let Ok(c) = expr_code(e, sp, vars) {
                assert(instr_ok(c, 0));
            }
        },
    }
}

proof fn lemma_stmt_code_ok(s: StmtV, vars: Seq<Seq<char>>)
    requires
        3 * stmt_size(s) <= MAX_INSTRS,
    ensures
        stmt_code(s, vars) matches Ok((c, v)) ==> body_ok(c),
    decreases s, 0nat,
{
    lemma_stmt_code_len(s, vars);
    match s.kind {
        StmtKindV::Let { name, init } => {
            lemma_expr_code_ok(init, 0, vars.push(name));
            if let Ok(c) = expr_code(init, 0, vars.push(name)) {
                let sw = seq![
                    tagged(Instr::Sw { rs1: GP, rs2: temp_reg(0), imm: (vars.len() * 4) as i32 }, s.id, s.span),
                ];
                assert(instr_ok(sw, 0));
                lemma_body_ok_concat(c, sw);
                assert(c.push(sw[0]) =~= c + sw);
            }
        },
        StmtKindV::Assign { name, value } => {
            lemma_expr_code_ok(value, 0, vars);
            if let (Some(slot), Ok(c)) = (slot_of(vars, name), expr_code(value, 0, vars)) {
                let sw = seq![
                    tagged(Instr::Sw { rs1: GP, rs2: temp_reg(0), imm: (slot * 4) as i32 }, s.id, s.span),
                ];
                assert(instr_ok(sw, 0));
                lemma_body_ok_concat(c, sw);
                assert(c.push(sw[0]) =~= c + sw);
            }
        },
        StmtKindV::Print { value } => {
            lemma_expr_code_ok(value, 0, vars);
            if let Ok(c) = expr_code(value, 0, vars) {
                let tail = seq![
                    tagged(Instr::Addi { rd: A0, rs1: temp_reg(0), imm: 0 }, s.id, s.span),
                    tagged(Instr::Addi { rd: A7, rs1: ZERO, imm: SYSCALL_PRINT_INT }, s.id, s.span),
                    tagged(Instr::Ecall, s.id, s.span),
                ];
                assert(body_ok(tail));
                lemma_body_ok_concat(c, tail);
            }
        },
        StmtKindV::If { cond, then_body, else_body } => {
            lemma_expr_code_ok(cond, 0, vars);
            lemma_expr_code_len(cond, 0, vars);
            lemma_stmts_code_ok(then_body, vars);
            lemma_stmts_code_len(then_body, vars);
            if let (Ok(c), Ok((t, vars1))) = (expr_code(cond, 0, vars), stmts_code(then_body, vars)) {
                match else_body {
                    None => {
                        lemma_words(t.len() + 1int);
                        let b = seq![
                            tagged(
                                Instr::Beq { rs1: temp_reg(0), rs2: ZERO, offset: words(t.len() + 1int) },
                                s.id,
                                cond.span,
                            ),
                        ];
                        let code = c + b + t;
                        let bi = c.len() as int;
                        assert(code[bi] == b[0]);
                        assert forall|k: int| 0 <= k < code.len() implies #[trigger] instr_ok(code, k) by {
                            if k == bi {
                            } else if k < bi {
                                assert(instr_ok(c, k));
                                assert(code[k] == c[k]);
                            } else {
                                assert(instr_ok(t, k - bi - 1));
                                assert(code[k] == t[k - bi - 1]);
                            }
                        }
                    },
                    Some(els) => {
                        lemma_stmts_code_ok(els, vars1);
                        lemma_stmts_code_len(els, vars1);
                        if let Ok((e, vars2)) = stmts_code(els, vars1) {
                            lemma_words(t.len() + 2int);
                            lemma_words(e.len() + 1int);
                            let b = seq![
                                tagged(
                                    Instr::Beq { rs1: temp_reg(0), rs2: ZERO, offset: words(t.len() + 2int) },
                                    s.id,
                                    cond.span,
                                ),
                            ];
                            let j = seq![
                                tagged(Instr::Jal { rd: ZERO, offset: words(e.len() + 1int) }, s.id, s.span),
                            ];
                            let code = c + b + t + j + e;
                            let bi = c.len() as int;
                            let ji = (c.len() + 1 + t.len()) as int;
                            assert(code[bi] == b[0]);
                            assert(code[ji] == j[0]);
                            assert forall|k: int| 0 <= k < code.len() implies #[trigger] instr_ok(code, k) by {
                                if k == bi || k == ji {
                                } else if k < bi {
                                    assert(instr_ok(c, k));
                                    assert(code[k] == c[k]);
                                } else if k < ji {
                                    assert(instr_ok(t, k - bi - 1));
                                    assert(code[k] == t[k - bi - 1]);
                                } else {
                                    assert(instr_ok(e, k - ji - 1));
                                    assert(code[k] == e[k - ji - 1]);
                                }
                            }
                        }
                    },
                }
            }
        },
        StmtKindV::While { cond, body } => {
            lemma_expr_code_ok(cond, 0, vars);
            lemma_expr_code_len(cond, 0, vars);
            lemma_stmts_code_ok(body, vars);
            lemma_stmts_code_len(body, vars);
            if let (Ok(c), Ok((b, vars1))) = (expr_code(cond, 0, vars), stmts_code(body, vars)) {
                lemma_words(b.len() + 2int);
                lemma_words(-(c.len() + 1 + b.len()));
                let br = seq![
                    tagged(Instr::Beq { rs1: temp_reg(0), rs2: ZERO, offset: words(b.len() + 2int) }, s.id, cond.span),
                ];
                let j = seq![
                    tagged(Instr::Jal { rd: ZERO, offset: words(-(c.len() + 1 + b.len())) }, s.id, s.span),
                ];
                let code = c + br + b + j;
                let bi = c.len() as int;
                let ji = (c.len() + 1 + b.len()) as int;
                assert(code[bi] == br[0]);
                assert(code[ji] == j[0]);
                assert forall|k: int| 0 <= k < code.len() implies #[trigger] instr_ok(code, k) by {
                    if k == bi || k == ji {
                    } else if k < bi {
                        assert(instr_ok(c, k));
                        assert(code[k] == c[k]);
                    } else {
                        assert(instr_ok(b, k - bi - 1));
                        assert(code[k] == b[k - bi - 1]);
                    }
                }
            }
        },
    }
}

proof fn lemma_stmts_code_ok(ss: Seq<StmtV>, vars: Seq<Seq<char>>)
    requires
        3 * stmts_size(ss) <= MAX_INSTRS,
    ensures
        stmts_code(ss, vars) matches Ok((c, v)) ==> body_ok(c),
    decreases ss, 1nat,
{
    if ss.len() > 0 {
        lemma_stmt_code_ok(ss[0], vars);
        if let Ok((c, vars1)) = stmt_code(ss[0], vars) {
            lemma_stmts_code_ok(ss.drop_first(), vars1);
            if let Ok((rest, vars2)) = stmts_code(ss.drop_first(), vars1) {
                lemma_body_ok_concat(c, rest);
            }
        }
    }
}

/// The statements of a compiled program sit between the two-instruction
/// prologue and the two-instruction epilogue.
proof fn lemma_program_body(prog: Seq<StmtV>)
    requires
        3 * stmts_size(prog) + 4 <= MAX_INSTRS,
    ensures
        program_code(prog) matches Ok((code, vars)) ==> {
            &&& code.len() >= 4
            &&& forall|k: int| 2 <= k < code.len() - 2 ==> #[trigger] instr_ok(code.subrange(2, code.len() - 2), k - 2)
            &&& forall|k: int| 2 <= k < code.len() - 2 ==> #[trigger] code[k] == code.subrange(2, code.len() - 2)[k - 2]
        },
{
    lemma_stmts_code_ok(prog, Seq::empty());
    lemma_stmts_code_len(prog, Seq::empty());
    if let Ok((body, vars)) = stmts_code(prog, Seq::empty()) {
        let code = program_code(prog)->Ok_0.0;
        assert(code.subrange(2, code.len() - 2) =~= body);
    }
}

/// Every instruction of a compiled program names registers x0..x31 only.
pub proof fn lemma_program_code_regs(prog: Seq<StmtV>)
    requires
        3 * stmts_size(prog) + 4 <= MAX_INSTRS,
    ensures
        program_code(prog) matches Ok((code, vars)) ==> regs_ok(code),
{
    lemma_program_body(prog);
    if let Ok((code, vars)) = program_code(prog) {
        assert forall|k: int| 0 <= k < code.len() implies regs_in_range(#[trigger] code[k].instr) by {
            if 2 <= k < code.len() - 2 {
                assert(instr_ok(code.subrange(2, code.len() - 2), k - 2));
                assert(code[k] == code.subrange(2, code.len() - 2)[k - 2]);
            }
        }
    }
}

/// Provenance: every instruction between the prologue and the epilogue
/// carries the AST node and the source span it was generated from.
pub proof fn lemma_body_provenance(prog: Seq<StmtV>)
    requires
        3 * stmts_size(prog) + 4 <= MAX_INSTRS,
    ensures
        program_code(prog) matches Ok((code, vars)) ==> forall|k: int|
            2 <= k < code.len() - 2 ==> (#[trigger] code[k]).node is Some && code[k].span is Some,
{
    lemma_program_body(prog);
    if let Ok((code, vars)) = program_code(prog) {
        assert forall|k: int| 2 <= k < code.len() - 2 implies (#[trigger] code[k]).node is Some
            && code[k].span is Some by {
            assert(instr_ok(code.subrange(2, code.len() - 2), k - 2));
            assert(code[k] == code.subrange(2, code.len() - 2)[k - 2]);
        }
    }
}

/// Every branch and jump of a compiled program moves by whole instructions
/// to an instruction of the program.
pub proof fn lemma_jumps_land_in_code(prog: Seq<StmtV>)
    requires
        3 * stmts_size(prog) + 4 <= MAX_INSTRS,
    ensures
        program_code(prog) matches Ok((code, vars)) ==> forall|k: int|
            0 <= k < code.len() ==> (jump_offset((#[trigger] code[k]).instr) matches Some(off) ==> off % 4
                == 0 && 0 <= k + off / 4 < code.len()),
{
    lemma_program_body(prog);
    if let Ok((code, vars)) = program_code(prog) {
        assert forall|k: int| 0 <= k < code.len() implies (jump_offset((#[trigger] code[k]).instr) matches Some(
            off,
        ) ==> off % 4 == 0 && 0 <= k + off / 4 < code.len()) by {
            if 2 <= k < code.len() - 2 {
                assert(instr_ok(code.subrange(2, code.len() - 2), k - 2));
                assert(code[k] == code.subrange(2, code.len() - 2)[k - 2]);
            }
        }
    }
}

/// The prologue loads `gp` with the address right past the code, where the
/// data section starts, and the epilogue exits.
pub proof fn lemma_prologue_points_past_code(prog: Seq<StmtV>)
    ensures
        program_code(prog) matches Ok((code, vars)) ==> {
            let base = (code.len() * 4) as i32;
            &&& code.len() >= 4
            &&& code[0] == untagged(Instr::Lui { rd: GP, imm: hi_part(base) })
            &&& code[1] == untagged(Instr::Addi { rd: GP, rs1: GP, imm: lo_part(base) })
            &&& (hi_part(base) << 12u32).wrapping_add(lo_part(base)) == base
            &&& code[code.len() - 2] == untagged(Instr::Addi { rd: A7, rs1: ZERO, imm: SYSCALL_EXIT })
            &&& code[code.len() - 1] == untagged(Instr::Ecall)
        },
{
    if let Ok((code, vars)) = program_code(prog) {
        lemma_hi_lo((code.len() * 4) as i32);
    }
}

// ---- spans of the generated code ------------------------------------------------

/// Every instruction of `c` that carries a source span has a non-empty one
/// within the first `n` bytes.
pub open spec fn spans_in(c: Seq<Emitted>, n: int) -> bool {
    forall|k: int| 0 <= k < c.len() ==> ((#[trigger] c[k]).span matches Some(sp) ==> span_in(sp, n))
}

proof fn lemma_spans_concat(c1: Seq<Emitted>, c2: Seq<Emitted>, n: int)
    requires
        spans_in(c1, n),
        spans_in(c2, n),
    ensures
        spans_in(c1 + c2, n),
{
    assert forall|k: int| 0 <= k < (c1 + c2).len() implies ((#[trigger] (c1 + c2)[k]).span matches Some(sp)
        ==> span_in(sp, n)) by {
        if k < c1.len() {
            assert((c1 + c2)[k] == c1[k]);
        } else {
            assert((c1 + c2)[k] == c2[k - c1.len()]);
        }
    }
}

proof fn lemma_expr_code_spans(e: ExprV, sp: nat, vars: Seq<Seq<char>>, n: int)
    requires
        expr_spans_in(e, n),
    ensures
        expr_code(e, sp, vars) matches Ok(c) ==> spans_in(c, n),
    decreases e,
{
    match e.kind {
        ExprKindV::Unary { op, operand } => {
            lemma_expr_code_spans(*operand, sp, vars, n);
            if let Ok(c) = expr_code(*operand, sp, vars) {
                let r = temp_reg(sp as int);
                let neg = seq![tagged(Instr::Sub { rd: r, rs1: ZERO, rs2: r }, e.id, e.span)];
                lemma_spans_concat(c, neg, n);
                assert(c.push(neg[0]) =~= c + neg);
            }
        },
        ExprKindV::Binary { op, lhs, rhs } => {
            lemma_expr_code_spans(*lhs, sp, vars, n);
            lemma_expr_code_spans(*rhs, sp + 1, vars, n);
            if let (Ok(c1), Ok(c2)) = (expr_code(*lhs, sp, vars), expr_code(*rhs, sp + 1, vars)) {
                let b = binop_code(op, temp_reg(sp as int), temp_reg(sp + 1int), e.id, e.span);
                assert(spans_in(b, n));
                lemma_spans_concat(c1, c2, n);
                lemma_spans_concat(c1 + c2, b, n);
            }
        },
        _ => {
            if let Ok(c) = expr_code(e, sp, vars) {
                assert(spans_in(c, n));
            }
        },
    }
}

proof fn lemma_stmt_code_spans(s: StmtV, vars: Seq<Seq<char>>, n: int)
    requires
        stmt_spans_in(s, n),
    ensures
        stmt_code(s, vars) matches Ok((c, v)) ==> spans_in(c, n),
    decreases s, 0nat,
{
    match s.kind {
        StmtKindV::Let { name, init } => {
            lemma_expr_code_spans(init, 0, vars.push(name), n);
            if let Ok(c) = expr_code(init, 0, vars.push(name)) {
                let sw = seq![
                    tagged(Instr::Sw { rs1: GP, rs2: temp_reg(0), imm: (vars.len() * 4) as i32 }, s.id, s.span),
                ];
                lemma_spans_concat(c, sw, n);
                assert(c.push(sw[0]) =~= c + sw);
            }
        },
        StmtKindV::Assign { name, value } => {
            lemma_expr_code_spans(value, 0, vars, n);
            if let (Some(slot), Ok(c)) = (slot_of(vars, name), expr_code(value, 0, vars)) {
                let sw = seq![
                    tagged(Instr::Sw { rs1: GP, rs2: temp_reg(0), imm: (slot * 4) as i32 }, s.id, s.span),
                ];
                lemma_spans_concat(c, sw, n);
                assert(c.push(sw[0]) =~= c + sw);
            }
        },
        StmtKindV::Print { value } => {
            lemma_expr_code_spans(value, 0, vars, n);
            if let Ok(c) = expr_code(value, 0, vars) {
                let tail = seq![
                    tagged(Instr::Addi { rd: A0, rs1: temp_reg(0), imm: 0 }, s.id, s.span),
                    tagged(Instr::Addi { rd: A7, rs1: ZERO, imm: SYSCALL_PRINT_INT }, s.id, s.span),
                    tagged(Instr::Ecall, s.id, s.span),
                ];
                assert(spans_in(tail, n));
                lemma_spans_concat(c, tail, n);
            }
        },
        StmtKindV::If { cond, then_body, else_body } => {
            lemma_expr_code_spans(cond, 0, vars, n);
            lemma_stmts_code_spans(then_body, vars, n);
            if let (Ok(c), Ok((t, vars1))) = (expr_code(cond, 0, vars), stmts_code(then_body, vars)) {
                match else_body {
                    None => {
                        let b = seq![
                            tagged(
                                Instr::Beq { rs1: temp_reg(0), rs2: ZERO, offset: words(t.len() + 1int) },
                                s.id,
                                cond.span,
                            ),
                        ];
                        lemma_spans_concat(c, b, n);
                        lemma_spans_concat(c + b, t, n);
                    },
                    Some(els) => {
                        lemma_stmts_code_spans(els, vars1, n);
                        if let Ok((e, vars2)) = stmts_code(els, vars1) {
                            let b = seq![
                                tagged(
                                    Instr::Beq { rs1: temp_reg(0), rs2: ZERO, offset: words(t.len() + 2int) },
                                    s.id,
                                    cond.span,
                                ),
                            ];
                            let j = seq![
                                tagged(Instr::Jal { rd: ZERO, offset: words(e.len() + 1int) }, s.id, s.span),
                            ];
                            lemma_spans_concat(c, b, n);
                            lemma_spans_concat(c + b, t, n);
                            lemma_spans_concat(c + b + t, j, n);
                            lemma_spans_concat(c + b + t + j, e, n);
                        }
                    },
                }
            }
        },
        StmtKindV::While { cond, body } => {
            lemma_expr_code_spans(cond, 0, vars, n);
            lemma_stmts_code_spans(body, vars, n);
            if let (Ok(c), Ok((b, vars1))) = (expr_code(cond, 0, vars), stmts_code(body, vars)) {
                let br = seq![
                    tagged(Instr::Beq { rs1: temp_reg(0), rs2: ZERO, offset: words(b.len() + 2int) }, s.id, cond.span),
                ];
                let j = seq![
                    tagged(Instr::Jal { rd: ZERO, offset: words(-(c.len() + 1 + b.len())) }, s.id, s.span),
                ];
                lemma_spans_concat(c, br, n);
                lemma_spans_concat(c + br, b, n);
                lemma_spans_concat(c + br + b, j, n);
            }
        },
    }
}

proof fn lemma_stmts_code_spans(ss: Seq<StmtV>, vars: Seq<Seq<char>>, n: int)
    requires
        stmts_spans_in(ss, n),
    ensures
        stmts_code(ss, vars) matches Ok((c, v)) ==> spans_in(c, n),
    decreases ss, 1nat,
{
    if ss.len() > 0 {
        lemma_stmt_code_spans(ss[0], vars, n);
        if let Ok((c, vars1)) = stmt_code(ss[0], vars) {
            lemma_stmts_code_spans(ss.drop_first(), vars1, n);
            if let Ok((rest, vars2)) = stmts_code(ss.drop_first(), vars1) {
                lemma_spans_concat(c, rest, n);
            }
        }
    }
}

/// Provenance: every span carried by an instruction of a compiled program is
/// the span of one of its nodes, so it lies where the nodes' spans lie.
pub proof fn lemma_code_spans(prog: Seq<StmtV>, n: int)
    requires
        stmts_spans_in(prog, n),
    ensures
        program_code(prog) matches Ok((code, vars)) ==> spans_in(code, n),
{
    lemma_stmts_code_spans(prog, Seq::empty(), n);
    if let Ok((body, vars)) = stmts_code(prog, Seq::empty()) {
        let base = ((body.len() + 4) * 4) as i32;
        let pro = seq![
            untagged(Instr::Lui { rd: GP, imm: hi_part(base) }),
            untagged(Instr::Addi { rd: GP, rs1: GP, imm: lo_part(base) }),
        ];
        let epi = seq![untagged(Instr::Addi { rd: A7, rs1: ZERO, imm: SYSCALL_EXIT }), untagged(Instr::Ecall)];
        assert(spans_in(pro, n));
        assert(spans_in(epi, n));
        lemma_spans_concat(pro, body, n);
        lemma_spans_concat(pro + body, epi, n);
    }
}

// ---- variable slots ------------------------------------------------------------

proof fn lemma_stmt_code_vars(s: StmtV, vars: Seq<Seq<char>>)
    requires
        vars.no_duplicates(),
    ensures
        stmt_code(s, vars) matches Ok((c, v)) ==> v.no_duplicates(),
    decreases s, 0nat,
{
    match s.kind {
        StmtKindV::Let { name, init } => {
            lemma_find_var(vars, name, 0);
            if slot_of(vars, name) is None {
                let v = vars.push(name);
                assert forall|i: int, j: int| 0 <= i < j < v.len() implies v[i] != v[j] by {
                    assert(v[i] == vars[i]);
                    if j < vars.len() {
                        assert(v[j] == vars[j]);
                    }
                }
            }
        },
        StmtKindV::If { cond, then_body, else_body } => {
            lemma_stmts_code_vars(then_body, vars);
            if let Ok((t, vars1)) = stmts_code(then_body, vars) {
                if let Some(els) = else_body {
                    lemma_stmts_code_vars(els, vars1);
                }
            }
        },
        StmtKindV::While { cond, body } => {
            lemma_stmts_code_vars(body, vars);
        },
        _ => {},
    }
}

proof fn lemma_stmts_code_vars(ss: Seq<StmtV>, vars: Seq<Seq<char>>)
    requires
        vars.no_duplicates(),
    ensures
        stmts_code(ss, vars) matches Ok((c, v)) ==> v.no_duplicates(),
    decreases ss, 1nat,
{
    if ss.len() > 0 {
        lemma_stmt_code_vars(ss[0], vars);
        if let Ok((c, vars1)) = stmt_code(ss[0], vars) {
            lemma_stmts_code_vars(ss.drop_first(), vars1);
        }
    }
}

/// Each variable of a compiled program has exactly one slot: no name occurs
/// twice among the program's variables.
pub proof fn lemma_program_vars_distinct(prog: Seq<StmtV>)
    ensures
        program_code(prog) matches Ok((code, vars)) ==> vars.no_duplicates(),
{
    lemma_stmts_code_vars(prog, Seq::empty());
}

} // verus!
