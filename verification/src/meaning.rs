//! What expressions mean, and that their generated code computes it.
//!
//! The language works on 32-bit integers: `+ - *` wrap, division follows
//! RISC-V (`x / 0 == -1`, `x % 0 == x`), and comparisons give 1 or 0.
use vstd::prelude::*;
use crate::ast::{BinOp, ExprKindV, ExprV};
use crate::codegen::{Emitted, binop_code, expr_code, jump_offset, lemma_hi_lo, load_imm_code, lo_part, hi_part, slot_of};
use crate::cpu::{Delta, Machine, div_value, execute_outcome, fresh_delta, read_word_at, rem_value, set_if, step_outcome};
use crate::assembler::{decoding, encoding, fits_fields, lemma_decode_encode};
use crate::vm::run_outcome;
use crate::ir::{GP, Instr, NUM_TEMPS, Reg, temp_reg};
use crate::ast::NodeId;
use crate::span::Span;

verus! {

/// The value of a binary operator on `a` and `b`.
pub open spec fn binop_value(op: BinOp, a: i32, b: i32) -> i32 {
    match op {
        BinOp::Add => a.wrapping_add(b),
        BinOp::Sub => a.wrapping_sub(b),
        BinOp::Mul => a.wrapping_mul(b),
        BinOp::Div => div_value(a, b),
        BinOp::Rem => rem_value(a, b),
        BinOp::Lt => set_if(a < b),
        BinOp::Gt => set_if(a > b),
        BinOp::Le => set_if(a <= b),
        BinOp::Ge => set_if(a >= b),
        BinOp::Eq => set_if(a == b),
        BinOp::Ne => set_if(a != b),
    }
}

/// The value of `e` when the variable in slot `k` of `vars` holds `vals[k]`.
pub open spec fn expr_value(e: ExprV, vars: Seq<Seq<char>>, vals: Seq<i32>) -> i32
    decreases e,
{
    match e.kind {
        ExprKindV::Int { value } => value,
        ExprKindV::Var { name } => match slot_of(vars, name) {
            Some(k) => vals[k],
            None => 0,
        },
        ExprKindV::Unary { operand, .. } => 0i32.wrapping_sub(expr_value(*operand, vars, vals)),
        ExprKindV::Binary { op, lhs, rhs } => binop_value(
            op,
            expr_value(*lhs, vars, vals),
            expr_value(*rhs, vars, vals),
        ),
    }
}

/// The machine after executing `code` one instruction after another, each
/// by the CPU's semantics of that instruction.
pub open spec fn run_straight(m: Machine, code: Seq<Emitted>) -> Machine
    decreases code.len(),
{
    if code.len() == 0 {
        m
    } else {
        run_straight(execute_outcome(m, fresh_delta(m), code[0].instr).0, code.drop_first())
    }
}

/// Register `r` is not one of the temporaries from stack slot `sp` up.
pub open spec fn below_stack(r: int, sp: nat) -> bool {
    forall|k: int| sp <= k < NUM_TEMPS ==> r != #[trigger] temp_reg(k)
}

/// The variables' slots, addressed from `gp`, hold `vals`.
pub open spec fn slots_hold(m: Machine, vals: Seq<i32>) -> bool {
    forall|k: int|
        0 <= k < vals.len() ==> read_word_at(
            m.mem,
            (m.regs[GP as int].wrapping_add((k * 4) as i32)) as u32,
        ) == Some(#[trigger] vals[k])
}

/// A machine whose register file has 32 entries with x0 at zero.
pub open spec fn sane(m: Machine) -> bool {
    m.regs.len() == 32 && m.regs[0] == 0
}

proof fn lemma_run_concat(m: Machine, c1: Seq<Emitted>, c2: Seq<Emitted>)
    ensures
        run_straight(m, c1 + c2) == run_straight(run_straight(m, c1), c2),
    decreases c1.len(),
{
    if c1.len() == 0 {
        assert(c1 + c2 =~= c2);
    } else {
        let m1 = execute_outcome(m, fresh_delta(m), c1[0].instr).0;
        assert((c1 + c2).drop_first() =~= c1.drop_first() + c2);
        assert((c1 + c2)[0] == c1[0]);
        lemma_run_concat(m1, c1.drop_first(), c2);
    }
}

proof fn lemma_run_one(m: Machine, e: Emitted)
    ensures
        run_straight(m, seq![e]) == execute_outcome(m, fresh_delta(m), e.instr).0,
{
    let m1 = execute_outcome(m, fresh_delta(m), e.instr).0;
    assert(seq![e].drop_first() =~= Seq::<Emitted>::empty());
    assert(run_straight(m1, Seq::<Emitted>::empty()) == m1);
}

proof fn lemma_run_two(m: Machine, e1: Emitted, e2: Emitted)
    ensures
        run_straight(m, seq![e1, e2]) == execute_outcome(
            execute_outcome(m, fresh_delta(m), e1.instr).0,
            fresh_delta(execute_outcome(m, fresh_delta(m), e1.instr).0),
            e2.instr,
        ).0,
{
    assert(seq![e1, e2] =~= seq![e1] + seq![e2]);
    lemma_run_concat(m, seq![e1], seq![e2]);
    lemma_run_one(m, e1);
    lemma_run_one(execute_outcome(m, fresh_delta(m), e1.instr).0, e2);
}

proof fn lemma_bits(a: i32, b: i32)
    ensures
        set_if(true) ^ 1i32 == set_if(false),
        set_if(false) ^ 1i32 == set_if(true),
        ((a.wrapping_sub(b) as u32) < (1i32 as u32)) == (a == b),
        ((0i32 as u32) < (a.wrapping_sub(b) as u32)) == (a != b),
{
    assert((1i32 ^ 1i32) == 0i32 && (0i32 ^ 1i32) == 1i32) by (bit_vector);
    let x = a.wrapping_sub(b);
    assert(x == 0 <==> a == b);
    assert(((x as u32) < (1i32 as u32)) == (x == 0)) by (bit_vector);
    assert(((0i32 as u32) < (x as u32)) == (x != 0)) by (bit_vector);
}

pub(crate) proof fn lemma_fixed_regs(sp: nat)
    ensures
        below_stack(0, sp),
        below_stack(GP as int, sp),
{
    assert forall|k: int| sp <= k < NUM_TEMPS implies 0 != #[trigger] temp_reg(k) && GP as int != temp_reg(k) by {
    }
}

/// `m2` is `m` with at most register `rd` changed.
pub open spec fn only_reg_changed(m: Machine, m2: Machine, rd: int) -> bool {
    &&& sane(m2)
    &&& m2.halted == m.halted
    &&& m2.mem == m.mem
    &&& forall|r: int| 0 <= r < 32 && r != rd ==> m2.regs[r] == m.regs[r]
}

proof fn lemma_write(m: Machine, instr: Instr, rd: Reg, v: i32)
    requires
        sane(m),
        0 < rd < 32,
        execute_outcome(m, fresh_delta(m), instr).0 == (Machine {
            regs: m.regs.update(rd as int, v),
            pc: m.pc.wrapping_add(4),
            ..m
        }),
    ensures
        only_reg_changed(m, execute_outcome(m, fresh_delta(m), instr).0, rd as int),
        execute_outcome(m, fresh_delta(m), instr).0.regs[rd as int] == v,
{
}

proof fn lemma_load_imm_value(rd: Reg, value: i32, id: NodeId, span: Span, m: Machine)
    requires
        sane(m),
        0 < rd < 32,
    ensures
        only_reg_changed(m, run_straight(m, load_imm_code(rd, value, id, span)), rd as int),
        run_straight(m, load_imm_code(rd, value, id, span)).regs[rd as int] == value,
{
    let c = load_imm_code(rd, value, id, span);
    if -2048 <= value <= 2047 {
        lemma_run_one(m, c[0]);
        assert(c =~= seq![c[0]]);
        lemma_write(m, c[0].instr, rd, 0i32.wrapping_add(value));
    } else {
        lemma_hi_lo(value);
        lemma_run_two(m, c[0], c[1]);
        assert(c =~= seq![c[0], c[1]]);
        let hi = hi_part(value) << 12u32;
        lemma_write(m, c[0].instr, rd, hi);
        let m1 = execute_outcome(m, fresh_delta(m), c[0].instr).0;
        lemma_write(m1, c[1].instr, rd, hi.wrapping_add(lo_part(value)));
    }
}

proof fn lemma_binop_code_value(op: BinOp, r1: Reg, r2: Reg, id: NodeId, span: Span, m: Machine)
    requires
        sane(m),
        0 < r1 < 32,
        0 < r2 < 32,
        r1 != r2,
    ensures
        only_reg_changed(m, run_straight(m, binop_code(op, r1, r2, id, span)), r1 as int),
        run_straight(m, binop_code(op, r1, r2, id, span)).regs[r1 as int] == binop_value(
            op,
            m.regs[r1 as int],
            m.regs[r2 as int],
        ),
{
    let c = binop_code(op, r1, r2, id, span);
    let a = m.regs[r1 as int];
    let b = m.regs[r2 as int];
    lemma_bits(a, b);
    match op {
        BinOp::Le | BinOp::Ge | BinOp::Eq | BinOp::Ne => {
            lemma_run_two(m, c[0], c[1]);
            assert(c =~= seq![c[0], c[1]]);
            let v1 = match op {
                BinOp::Le => set_if(b < a),
                BinOp::Ge => set_if(a < b),
                _ => a.wrapping_sub(b),
            };
            lemma_write(m, c[0].instr, r1, v1);
            let m1 = execute_outcome(m, fresh_delta(m), c[0].instr).0;
            let v2 = match op {
                BinOp::Le | BinOp::Ge => v1 ^ 1i32,
                BinOp::Eq => set_if((v1 as u32) < (1i32 as u32)),
                _ => set_if((0i32 as u32) < (v1 as u32)),
            };
            lemma_write(m1, c[1].instr, r1, v2);
        },
        _ => {
            lemma_run_one(m, c[0]);
            assert(c =~= seq![c[0]]);
            lemma_write(m, c[0].instr, r1, binop_value(op, a, b));
        },
    }
}

proof fn lemma_temps()
    ensures
        forall|k: int| 0 <= k < NUM_TEMPS ==> 4 < #[trigger] temp_reg(k) < 32,
        forall|j: int, k: int| 0 <= j < k < NUM_TEMPS ==> #[trigger] temp_reg(j) != #[trigger] temp_reg(k),
{
}

/// Expression code computes the expression's value: run on a machine whose
/// variable slots hold `vals`, the code of `e` for stack slot `sp` leaves
/// `e`'s value in that slot's temporary, changes no register below the
/// stack (`gp` and x0 included), and leaves memory as it was.
pub proof fn lemma_expr_code_value(e: ExprV, sp: nat, vars: Seq<Seq<char>>, vals: Seq<i32>, m: Machine)
    requires
        sane(m),
        !m.halted,
        vars.len() <= vals.len(),
        slots_hold(m, vals),
    ensures
        expr_code(e, sp, vars) matches Ok(c) ==> {
            let m2 = run_straight(m, c);
            &&& sp < NUM_TEMPS
            &&& sane(m2)
            &&& !m2.halted
            &&& m2.mem == m.mem
            &&& m2.regs[temp_reg(sp as int) as int] == expr_value(e, vars, vals)
            &&& forall|r: int| 0 <= r < 32 && below_stack(r, sp) ==> m2.regs[r] == m.regs[r]
        },
    decreases e,
{
    lemma_fixed_regs(sp);
    lemma_temps();
    if let Ok(c) = expr_code(e, sp, vars) {
        let t = temp_reg(sp as int);
        match e.kind {
            ExprKindV::Int { value } => {
                lemma_load_imm_value(t, value, e.id, e.span, m);
            },
            ExprKindV::Var { name } => {
                crate::codegen::lemma_find_var(vars, name, 0);
                let k = slot_of(vars, name).unwrap();
                assert(vals[k] == vals[k]);
                lemma_run_one(m, c[0]);
                assert(c =~= seq![c[0]]);
                lemma_write(m, c[0].instr, t, vals[k]);
            },
            ExprKindV::Unary { op, operand } => {
                lemma_expr_code_value(*operand, sp, vars, vals, m);
                let c0 = expr_code(*operand, sp, vars)->Ok_0;
                let m1 = run_straight(m, c0);
                let neg = c[c0.len() as int];
                assert(c =~= c0 + seq![neg]);
                lemma_run_concat(m, c0, seq![neg]);
                lemma_run_one(m1, neg);
                lemma_write(m1, neg.instr, t, 0i32.wrapping_sub(m1.regs[t as int]));
            },
            ExprKindV::Binary { op, lhs, rhs } => {
                lemma_expr_code_value(*lhs, sp, vars, vals, m);
                let c1 = expr_code(*lhs, sp, vars)->Ok_0;
                let m1 = run_straight(m, c1);
                assert(slots_hold(m1, vals));
                lemma_expr_code_value(*rhs, sp + 1, vars, vals, m1);
                let c2 = expr_code(*rhs, sp + 1, vars)->Ok_0;
                let m2 = run_straight(m1, c2);
                let t2 = temp_reg(sp + 1int);
                let b = binop_code(op, t, t2, e.id, e.span);
                assert(c =~= c1 + c2 + b);
                lemma_run_concat(m, c1, c2);
                lemma_run_concat(m, c1 + c2, b);
                assert(below_stack(t as int, sp + 1));
                lemma_binop_code_value(op, t, t2, e.id, e.span, m2);
                assert forall|r: int| 0 <= r < 32 && below_stack(r, sp) implies below_stack(r, sp + 1)
                    && r != t by {
                    assert forall|k: int| sp + 1 <= k < NUM_TEMPS implies r != #[trigger] temp_reg(k) by {
                        assert(sp <= k);
                    }
                    assert(r != temp_reg(sp as int));
                }
            },
        }
    }
}

// ---- on the CPU ----------------------------------------------------------------

/// The texts printed during a run, in order.
pub open spec fn texts(ds: Seq<Delta>) -> Seq<Seq<char>>
    decreases ds.len(),
{
    if ds.len() == 0 {
        Seq::empty()
    } else {
        match ds[0].output {
            Some(t) => seq![t] + texts(ds.drop_first()),
            None => texts(ds.drop_first()),
        }
    }
}

/// No cycle of the run faulted.
pub open spec fn no_errors(ds: Seq<Delta>) -> bool {
    forall|i: int| 0 <= i < ds.len() ==> (#[trigger] ds[i]).error is None
}

pub proof fn lemma_texts_concat(a: Seq<Delta>, b: Seq<Delta>)
    ensures
        texts(a + b) == texts(a) + texts(b),
    decreases a.len(),
{
    if a.len() == 0 {
        assert(a + b =~= b);
        assert(Seq::<Seq<char>>::empty() + texts(b) =~= texts(b));
    } else {
        assert((a + b)[0] == a[0]);
        assert((a + b).drop_first() =~= a.drop_first() + b);
        lemma_texts_concat(a.drop_first(), b);
        if let Some(t) = a[0].output {
            assert(seq![t] + (texts(a.drop_first()) + texts(b)) =~= seq![t] + texts(a.drop_first())
                + texts(b));
        }
    }
}

/// A run that has not halted after `a` cycles goes on from where it is.
pub proof fn lemma_run_split(m: Machine, a: nat, b: nat)
    requires
        !run_outcome(m, a).0.halted,
    ensures
        run_outcome(m, a + b) == (
            run_outcome(run_outcome(m, a).0, b).0,
            run_outcome(m, a).1 + run_outcome(run_outcome(m, a).0, b).1,
        ),
    decreases a,
{
    if a == 0 {
        assert(Seq::<Delta>::empty() + run_outcome(m, b).1 =~= run_outcome(m, b).1);
    } else {
        let (m1, d) = step_outcome(m);
        lemma_run_split(m1, (a - 1) as nat, b);
        assert((a + b - 1) as nat == (a - 1) as nat + b);
        let x = run_outcome(m1, (a - 1) as nat).1;
        let y = run_outcome(run_outcome(m1, (a - 1) as nat).0, b).1;
        assert(seq![d] + (x + y) =~= (seq![d] + x) + y);
    }
}

/// `c` is laid out as machine words in `mem` from the word-aligned address
/// `pc` on, each instruction fitting its encoding.
pub open spec fn code_at(mem: Seq<u8>, pc: u32, c: Seq<Emitted>) -> bool {
    &&& pc % 4 == 0
    &&& pc + 4 * c.len() <= u32::MAX
    &&& forall|k: int|
        0 <= k < c.len() ==> read_word_at(mem, (pc + 4 * k) as u32) == Some(
            encoding((#[trigger] c[k]).instr) as i32,
        ) && fits_fields(c[k].instr)
}

/// An instruction that neither branches, jumps, stores nor calls.
pub open spec fn plain(instr: Instr) -> bool {
    &&& jump_offset(instr) is None
    &&& !(instr is Sw)
    &&& !(instr is Ecall)
}

/// Fetching and decoding the word at the pc gives back the instruction
/// encoded there, so the cycle executes it.
pub(crate) proof fn lemma_fetch(m: Machine, instr: Instr)
    requires
        !m.halted,
        m.pc % 4 == 0,
        read_word_at(m.mem, m.pc) == Some(encoding(instr) as i32),
        fits_fields(instr),
    ensures
        step_outcome(m) == execute_outcome(m, fresh_delta(m), instr),
{
    let w = encoding(instr);
    assert(((w as i32) as u32) == w) by (bit_vector);
    lemma_decode_encode(instr);
}

/// A plain instruction that does not fault moves on to the next word and
/// leaves memory alone.
proof fn lemma_plain_step(m: Machine, instr: Instr)
    requires
        plain(instr),
        !execute_outcome(m, fresh_delta(m), instr).0.halted,
    ensures
        execute_outcome(m, fresh_delta(m), instr).0.pc == m.pc.wrapping_add(4),
        execute_outcome(m, fresh_delta(m), instr).0.mem == m.mem,
        execute_outcome(m, fresh_delta(m), instr).1.output is None,
        execute_outcome(m, fresh_delta(m), instr).1.error is None,
{
}

proof fn lemma_halted_stays(m: Machine, c: Seq<Emitted>)
    requires
        m.halted,
    ensures
        run_straight(m, c).halted,
    decreases c.len(),
{
    if c.len() > 0 {
        lemma_halted_stays(execute_outcome(m, fresh_delta(m), c[0].instr).0, c.drop_first());
    }
}

/// Stepping the CPU through plain code laid out at the pc does what running
/// the code instruction by instruction does, as long as nothing faults.
proof fn lemma_steps_run_straight(m: Machine, c: Seq<Emitted>)
    requires
        code_at(m.mem, m.pc, c),
        forall|k: int| 0 <= k < c.len() ==> plain(#[trigger] c[k].instr),
        !run_straight(m, c).halted,
    ensures
        run_outcome(m, c.len()).0 == run_straight(m, c),
        run_straight(m, c).pc == m.pc + 4 * c.len(),
        run_straight(m, c).mem == m.mem,
        texts(run_outcome(m, c.len()).1) == Seq::<Seq<char>>::empty(),
        no_errors(run_outcome(m, c.len()).1),
    decreases c.len(),
{
    if c.len() > 0 {
        let m1 = execute_outcome(m, fresh_delta(m), c[0].instr).0;
        let rest = c.drop_first();
        if m.halted {
            lemma_halted_stays(m, c);
        }
        if m1.halted {
            lemma_halted_stays(m1, rest);
        }
        assert(read_word_at(m.mem, (m.pc + 4 * 0) as u32) == Some(encoding(c[0].instr) as i32));
        lemma_fetch(m, c[0].instr);
        assert(plain(c[0].instr));
        lemma_plain_step(m, c[0].instr);
        assert forall|k: int| 0 <= k < rest.len() implies read_word_at(m1.mem, (m1.pc + 4 * k) as u32) == Some(
            encoding((#[trigger] rest[k]).instr) as i32,
        ) && fits_fields(rest[k].instr) by {
            assert(rest[k] == c[k + 1]);
            assert(m1.pc + 4 * k == m.pc + 4 * (k + 1));
        }
        assert forall|k: int| 0 <= k < rest.len() implies plain(#[trigger] rest[k].instr) by {
            assert(rest[k] == c[k + 1]);
        }
        lemma_steps_run_straight(m1, rest);
        let d = step_outcome(m).1;
        let ds = run_outcome(m1, rest.len()).1;
        assert((seq![d] + ds)[0] == d);
        assert((seq![d] + ds).drop_first() =~= ds);
        assert forall|i: int| 0 <= i < (seq![d] + ds).len() implies (#[trigger] (seq![d] + ds)[i]).error is None by {
            if i > 0 {
                assert((seq![d] + ds)[i] == ds[i - 1]);
            }
        }
    } else {
        assert(no_errors(Seq::<Delta>::empty()));
    }
}

/// Expression code on the CPU: with the machine words of the code of `e`
/// at the pc and the variable slots holding `vals`, stepping the CPU
/// through the code leaves `e`'s value in the stack slot's temporary,
/// moves the pc just past the code, and changes no register below the
/// stack and no memory.
pub proof fn lemma_expr_runs_on_cpu(e: ExprV, sp: nat, vars: Seq<Seq<char>>, vals: Seq<i32>, m: Machine)
    requires
        sane(m),
        !m.halted,
        vars.len() <= vals.len(),
        slots_hold(m, vals),
    ensures
        expr_code(e, sp, vars) matches Ok(c) ==> code_at(m.mem, m.pc, c) ==> {
            let m2 = run_outcome(m, c.len()).0;
            &&& sane(m2)
            &&& !m2.halted
            &&& m2.pc == m.pc + 4 * c.len()
            &&& m2.mem == m.mem
            &&& texts(run_outcome(m, c.len()).1) == Seq::<Seq<char>>::empty()
            &&& no_errors(run_outcome(m, c.len()).1)
            &&& m2.regs[temp_reg(sp as int) as int] == expr_value(e, vars, vals)
            &&& forall|r: int| 0 <= r < 32 && below_stack(r, sp) ==> m2.regs[r] == m.regs[r]
        },
{
    lemma_expr_code_value(e, sp, vars, vals, m);
    lemma_expr_code_plain(e, sp, vars);
    if let Ok(c) = expr_code(e, sp, vars) {
        if code_at(m.mem, m.pc, c) {
            lemma_steps_run_straight(m, c);
        }
    }
}

proof fn lemma_plain_concat(c1: Seq<Emitted>, c2: Seq<Emitted>)
    requires
        forall|k: int| 0 <= k < c1.len() ==> plain(#[trigger] c1[k].instr),
        forall|k: int| 0 <= k < c2.len() ==> plain(#[trigger] c2[k].instr),
    ensures
        forall|k: int| 0 <= k < (c1 + c2).len() ==> plain(#[trigger] (c1 + c2)[k].instr),
{
    assert forall|k: int| 0 <= k < (c1 + c2).len() implies plain(#[trigger] (c1 + c2)[k].instr) by {
        if k < c1.len() {
            assert((c1 + c2)[k] == c1[k]);
        } else {
            assert((c1 + c2)[k] == c2[k - c1.len()]);
        }
    }
}

/// Expression code neither branches, jumps, stores nor calls.
proof fn lemma_expr_code_plain(e: ExprV, sp: nat, vars: Seq<Seq<char>>)
    ensures
        expr_code(e, sp, vars) matches Ok(c) ==> forall|k: int| 0 <= k < c.len() ==> plain(#[trigger] c[k].instr),
    decreases e,
{
    if let Ok(c) = expr_code(e, sp, vars) {
        match e.kind {
            ExprKindV::Unary { op, operand } => {
                lemma_expr_code_plain(*operand, sp, vars);
                let c0 = expr_code(*operand, sp, vars)->Ok_0;
                let neg = seq![c[c0.len() as int]];
                assert(c =~= c0 + neg);
                lemma_plain_concat(c0, neg);
            },
            ExprKindV::Binary { op, lhs, rhs } => {
                lemma_expr_code_plain(*lhs, sp, vars);
                lemma_expr_code_plain(*rhs, sp + 1, vars);
                let c1 = expr_code(*lhs, sp, vars)->Ok_0;
                let c2 = expr_code(*rhs, sp + 1, vars)->Ok_0;
                let b = binop_code(op, temp_reg(sp as int), temp_reg(sp + 1int), e.id, e.span);
                assert(c =~= c1 + c2 + b);
                lemma_plain_concat(c1, c2);
                lemma_plain_concat(c1 + c2, b);
            },
            _ => {},
        }
    }
}

} // verus!
