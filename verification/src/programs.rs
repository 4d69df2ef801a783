//! What programs mean, and that their machine code does it.
//!
//! Variables start at 0 and hold 32-bit integers; a `let` declares its
//! variable before evaluating the initialiser, which therefore reads the
//! variable's slot as it stands; `if` and `while` take their body when the
//! condition is not 0; `print` prints a value. A run of
//! the reference semantics allows each loop at most `fuel` iterations per
//! entry, so a terminating program has a run for some fuel.
use vstd::prelude::*;
use crate::assembler::{encoding, fits_fields};
use crate::ast::{ExprKindV, ExprV, StmtKindV, StmtV, stmts_size};
use crate::codegen::{Emitted, MAX_INSTRS, expr_code, hi_part, lo_part, program_code, slot_of, stmt_code, stmts_code, words};
use crate::cpu::{Delta, MEM_SIZE, Machine, boot_state, execute_outcome, fresh_delta, lemma_store_then_load, print_text};
use crate::cpu::{read_word_at, step_outcome, write_word_at};
use crate::ir::{A0, A7, GP, Instr, SYSCALL_EXIT, SYSCALL_PRINT_INT, ZERO, regs_in_range, temp_reg};
use crate::lexer::TokenView;
use crate::meaning::{code_at, expr_value, lemma_expr_runs_on_cpu, lemma_fetch, lemma_fixed_regs, lemma_texts_concat};
use crate::meaning::{no_errors, sane, slots_hold, texts};
use crate::vm::{AsmRow, Compilation, compilation_is, compiled, listing_row, rows_bytes, word_bytes};
use crate::vm::run_outcome;

verus! {

// ---- the reference semantics -----------------------------------------------------

/// The variables declared once `s` is compiled after `vars`.
pub open spec fn declared(s: StmtV, vars: Seq<Seq<char>>) -> Seq<Seq<char>>
    decreases s, 0nat,
{
    match s.kind {
        StmtKindV::Let { name, .. } => vars.push(name),
        StmtKindV::If { then_body, else_body, .. } => match else_body {
            Some(b) => declared_all(b, declared_all(then_body, vars)),
            None => declared_all(then_body, vars),
        },
        StmtKindV::While { body, .. } => declared_all(body, vars),
        _ => vars,
    }
}

/// The variables declared once `ss` is compiled after `vars`.
pub open spec fn declared_all(ss: Seq<StmtV>, vars: Seq<Seq<char>>) -> Seq<Seq<char>>
    decreases ss, 1nat,
{
    if ss.len() == 0 {
        vars
    } else {
        declared_all(ss.drop_first(), declared(ss[0], vars))
    }
}

/// Running `s`, with `vars` declared before it and variable `k` holding
/// `vals[k]`: the values afterwards and the values printed, or `None` when
/// some loop needs more than `fuel` iterations.
pub open spec fn exec_stmt(s: StmtV, vars: Seq<Seq<char>>, vals: Seq<i32>, fuel: nat) -> Option<
    (Seq<i32>, Seq<i32>),
>
    decreases fuel, s, 0nat,
{
    match s.kind {
        StmtKindV::Let { name, init } => Some(
            (vals.update(vars.len() as int, expr_value(init, vars.push(name), vals)), Seq::empty()),
        ),
        StmtKindV::Assign { name, value } => match slot_of(vars, name) {
            Some(k) => Some((vals.update(k, expr_value(value, vars, vals)), Seq::empty())),
            None => None,
        },
        StmtKindV::Print { value } => Some((vals, seq![expr_value(value, vars, vals)])),
        StmtKindV::If { cond, then_body, else_body } => if expr_value(cond, vars, vals) != 0 {
            exec_stmts(then_body, vars, vals, fuel)
        } else {
            match else_body {
                Some(b) => exec_stmts(b, declared_all(then_body, vars), vals, fuel),
                None => Some((vals, Seq::empty())),
            }
        },
        StmtKindV::While { cond, body } => if expr_value(cond, vars, vals) == 0 {
            Some((vals, Seq::empty()))
        } else if fuel == 0 {
            None
        } else {
            match exec_stmts(body, vars, vals, fuel) {
                Some((v1, o1)) => match exec_stmt(s, vars, v1, (fuel - 1) as nat) {
                    Some((v2, o2)) => Some((v2, o1 + o2)),
                    None => None,
                },
                None => None,
            }
        },
    }
}

/// Running a statement list, as `exec_stmt`.
pub open spec fn exec_stmts(ss: Seq<StmtV>, vars: Seq<Seq<char>>, vals: Seq<i32>, fuel: nat) -> Option<
    (Seq<i32>, Seq<i32>),
>
    decreases fuel, ss, 1nat,
{
    if ss.len() == 0 {
        Some((vals, Seq::empty()))
    } else {
        match exec_stmt(ss[0], vars, vals, fuel) {
            Some((v1, o1)) => match exec_stmts(ss.drop_first(), declared(ss[0], vars), v1, fuel) {
                Some((v2, o2)) => Some((v2, o1 + o2)),
                None => None,
            },
            None => None,
        }
    }
}

// ---- declared variables ------------------------------------------------------------

proof fn lemma_declared_code(s: StmtV, vars: Seq<Seq<char>>)
    ensures
        stmt_code(s, vars) matches Ok((c, v)) ==> v == declared(s, vars),
        vars.len() <= declared(s, vars).len(),
    decreases s, 0nat,
{
    match s.kind {
        StmtKindV::If { cond, then_body, else_body } => {
            lemma_declared_all_code(then_body, vars);
            if let Some(b) = else_body {
                lemma_declared_all_code(b, declared_all(then_body, vars));
            }
        },
        StmtKindV::While { cond, body } => {
            lemma_declared_all_code(body, vars);
        },
        _ => {},
    }
}

proof fn lemma_declared_all_code(ss: Seq<StmtV>, vars: Seq<Seq<char>>)
    ensures
        stmts_code(ss, vars) matches Ok((c, v)) ==> v == declared_all(ss, vars),
        vars.len() <= declared_all(ss, vars).len(),
    decreases ss, 1nat,
{
    if ss.len() > 0 {
        lemma_declared_code(ss[0], vars);
        lemma_declared_all_code(ss.drop_first(), declared(ss[0], vars));
    }
}

// ---- the machine with a program loaded ---------------------------------------------

/// `m` runs the program `code`, loaded at address 0 with `gp` pointing at the
/// data section right after it, whose slots hold `vals`.
pub open spec fn loaded(m: Machine, code: Seq<Emitted>, vals: Seq<i32>) -> bool {
    &&& sane(m)
    &&& !m.halted
    &&& m.mem.len() <= MEM_SIZE
    &&& 4 * code.len() + 4 * vals.len() <= m.mem.len()
    &&& code_at(m.mem, 0, code)
    &&& m.regs[GP as int] == (4 * code.len()) as i32
    &&& slots_hold(m, vals)
}

/// The address of slot `k` as the program forms it from `gp`.
proof fn lemma_slot_addr(gp: i32, k: int)
    requires
        0 <= gp,
        0 <= k,
        gp + 4 * k <= MEM_SIZE,
    ensures
        (gp.wrapping_add((k * 4) as i32)) as u32 == gp + 4 * k,
{
}

/// The word of another address is untouched by a store.
proof fn lemma_store_other(mem: Seq<u8>, a: int, v: i32, b: u32)
    requires
        0 <= a,
        a + 4 <= mem.len(),
        b + 4 <= a || a + 4 <= b,
    ensures
        read_word_at(write_word_at(mem, a, v), b) == read_word_at(mem, b),
{
}

/// `code` in memory is the same on two machines whose memories agree below
/// the data section.
proof fn lemma_code_kept(mem: Seq<u8>, mem2: Seq<u8>, code: Seq<Emitted>)
    requires
        code_at(mem, 0, code),
        mem2.len() == mem.len(),
        forall|i: int| 0 <= i < 4 * code.len() ==> mem2[i] == mem[i],
    ensures
        code_at(mem2, 0, code),
{
    assert forall|k: int| 0 <= k < code.len() implies read_word_at(mem2, (0 + 4 * k) as u32) == Some(
        encoding((#[trigger] code[k]).instr) as i32,
    ) && fits_fields(code[k].instr) by {
        assert(read_word_at(mem, (0 + 4 * k) as u32) == Some(encoding(code[k].instr) as i32));
        assert(4 * k + 4 <= 4 * code.len());
        assert(mem2[4 * k] == mem[4 * k]);
        assert(mem2[4 * k + 1] == mem[4 * k + 1]);
        assert(mem2[4 * k + 2] == mem[4 * k + 2]);
        assert(mem2[4 * k + 3] == mem[4 * k + 3]);
    }
}

/// Storing `v` into slot `k` keeps the program loaded, with slot `k` now
/// holding `v`.
proof fn lemma_store_slot(m: Machine, code: Seq<Emitted>, vals: Seq<i32>, k: int, v: i32)
    requires
        loaded(m, code, vals),
        0 <= k < vals.len(),
    ensures
        loaded(
            Machine { mem: write_word_at(m.mem, 4 * code.len() + 4 * k, v), ..m },
            code,
            vals.update(k, v),
        ),
{
    let db = 4 * code.len();
    let a = db + 4 * k;
    let mem2 = write_word_at(m.mem, a, v);
    let m2 = Machine { mem: mem2, ..m };
    lemma_slot_addr(m.regs[GP as int], k);
    assert(read_word_at(m.mem, (m.regs[GP as int].wrapping_add((k * 4) as i32)) as u32) == Some(vals[k]));
    lemma_store_then_load(m.mem, a as u32, v);
    lemma_code_kept(m.mem, mem2, code);
    assert forall|j: int| 0 <= j < vals.update(k, v).len() implies read_word_at(
        m2.mem,
        (m2.regs[GP as int].wrapping_add((j * 4) as i32)) as u32,
    ) == Some(#[trigger] vals.update(k, v)[j]) by {
        lemma_slot_addr(m.regs[GP as int], j);
        if j != k {
            assert(read_word_at(m.mem, (m.regs[GP as int].wrapping_add((j * 4) as i32)) as u32) == Some(vals[j]));
            lemma_store_other(m.mem, a, v, (db + 4 * j) as u32);
        }
    }
}

/// A jump by `off` bytes from `pc` lands on `pc + off` when that is an
/// address.
proof fn lemma_jump(pc: u32, off: i32)
    requires
        0 <= pc + off <= u32::MAX,
    ensures
        pc.wrapping_add(off as u32) == pc + off,
{
    assert(((off as u32) as int) == if off < 0 {
        off + 0x1_0000_0000
    } else {
        off as int
    }) by (bit_vector);
}

/// Code placed at index `base` of `code` sits in memory at `4 * base`.
proof fn lemma_code_at_sub(mem: Seq<u8>, code: Seq<Emitted>, base: int, c: Seq<Emitted>)
    requires
        code_at(mem, 0, code),
        0 <= base,
        base + c.len() <= code.len(),
        code.subrange(base, base + c.len()) == c,
    ensures
        code_at(mem, (4 * base) as u32, c),
{
    assert forall|k: int| 0 <= k < c.len() implies read_word_at(mem, ((4 * base) as u32 + 4 * k) as u32) == Some(
        encoding((#[trigger] c[k]).instr) as i32,
    ) && fits_fields(c[k].instr) by {
        assert(c[k] == code[base + k]);
        assert(read_word_at(mem, (0 + 4 * (base + k)) as u32) == Some(
            encoding(code[base + k].instr) as i32,
        ));
        assert(((4 * base) as u32 + 4 * k) == 0 + 4 * (base + k));
    }
}

// ---- one piece at a time -------------------------------------------------------------

/// The texts printed by a single cycle.
proof fn lemma_texts_one(d: Delta)
    ensures
        texts(seq![d]) == (match d.output {
            Some(t) => seq![t],
            None => Seq::<Seq<char>>::empty(),
        }),
        no_errors(seq![d]) == (d.error is None),
{
    assert(seq![d].drop_first() =~= Seq::<Delta>::empty());
    assert(texts(Seq::<Delta>::empty()) == Seq::<Seq<char>>::empty());
    if let Some(t) = d.output {
        assert(seq![t] + Seq::<Seq<char>>::empty() =~= seq![t]);
    }
    let one = seq![d];
    if d.error is None {
        assert forall|i: int| 0 <= i < one.len() implies (#[trigger] one[i]).error is None by {
            assert(one[i] == d);
        }
    } else {
        assert(one[0] == d);
    }
}

/// The cycle at instruction `k` of a loaded program executes `code[k]`.
proof fn lemma_fetch_at(m: Machine, code: Seq<Emitted>, k: int)
    requires
        code_at(m.mem, 0, code),
        0 <= k < code.len(),
        m.pc == 4 * k,
        !m.halted,
    ensures
        step_outcome(m) == execute_outcome(m, fresh_delta(m), code[k].instr),
        run_outcome(m, 1) == (step_outcome(m).0, seq![step_outcome(m).1]),
{
    assert(read_word_at(m.mem, (0 + 4 * k) as u32) == Some(encoding(code[k].instr) as i32));
    lemma_fetch(m, code[k].instr);
    assert(run_outcome(step_outcome(m).0, 0) == (step_outcome(m).0, Seq::<Delta>::empty()));
    assert(seq![step_outcome(m).1] + Seq::<Delta>::empty() =~= seq![step_outcome(m).1]);
}

/// The code of an expression, placed at `base`, leaves its value in `t0`.
proof fn lemma_expr_piece(e: ExprV, vars: Seq<Seq<char>>, vals: Seq<i32>, m: Machine, code: Seq<Emitted>, base: int)
    requires
        loaded(m, code, vals),
        vars.len() <= vals.len(),
        expr_code(e, 0, vars) is Ok,
        0 <= base,
        base + expr_code(e, 0, vars)->Ok_0.len() <= code.len(),
        code.subrange(base, base + expr_code(e, 0, vars)->Ok_0.len()) == expr_code(e, 0, vars)->Ok_0,
        m.pc == 4 * base,
    ensures
        ({
            let n = expr_code(e, 0, vars)->Ok_0.len();
            let (m2, ds) = run_outcome(m, n);
            &&& loaded(m2, code, vals)
            &&& m2.pc == 4 * (base + n)
            &&& m2.regs[temp_reg(0) as int] == expr_value(e, vars, vals)
            &&& texts(ds) == Seq::<Seq<char>>::empty()
            &&& no_errors(ds)
        }),
{
    let c = expr_code(e, 0, vars)->Ok_0;
    lemma_code_at_sub(m.mem, code, base, c);
    lemma_expr_runs_on_cpu(e, 0, vars, vals, m);
    lemma_fixed_regs(0);
    let m2 = run_outcome(m, c.len()).0;
    assert(m2.regs[GP as int] == m.regs[GP as int]);
}

/// `sw t0, 4k(gp)` stores `t0` into slot `k`.
proof fn lemma_store_piece(m: Machine, code: Seq<Emitted>, vals: Seq<i32>, idx: int, k: int)
    requires
        loaded(m, code, vals),
        0 <= idx < code.len(),
        m.pc == 4 * idx,
        code[idx].instr == (Instr::Sw { rs1: GP, rs2: temp_reg(0), imm: (k * 4) as i32 }),
        0 <= k < vals.len(),
    ensures
        ({
            let (m2, ds) = run_outcome(m, 1);
            &&& loaded(m2, code, vals.update(k, m.regs[temp_reg(0) as int]))
            &&& m2.pc == 4 * (idx + 1)
            &&& texts(ds) == Seq::<Seq<char>>::empty()
            &&& no_errors(ds)
        }),
{
    lemma_fetch_at(m, code, idx);
    lemma_slot_addr(m.regs[GP as int], k);
    assert(read_word_at(m.mem, (m.regs[GP as int].wrapping_add((k * 4) as i32)) as u32) == Some(vals[k]));
    let v = m.regs[temp_reg(0) as int];
    lemma_store_slot(m, code, vals, k, v);
    let m1 = Machine { mem: write_word_at(m.mem, 4 * code.len() + 4 * k, v), ..m };
    let m2 = run_outcome(m, 1).0;
    assert(m2 == Machine { pc: m.pc.wrapping_add(4), ..m1 });
    lemma_texts_one(step_outcome(m).1);
}

/// `addi a0, t0, 0; addi a7, zero, 1; ecall` prints `t0`.
proof fn lemma_print_piece(m: Machine, code: Seq<Emitted>, vals: Seq<i32>, idx: int)
    requires
        loaded(m, code, vals),
        0 <= idx,
        idx + 3 <= code.len(),
        m.pc == 4 * idx,
        code[idx].instr == (Instr::Addi { rd: A0, rs1: temp_reg(0), imm: 0 }),
        code[idx + 1].instr == (Instr::Addi { rd: A7, rs1: ZERO, imm: SYSCALL_PRINT_INT }),
        code[idx + 2].instr == Instr::Ecall,
    ensures
        ({
            let (m2, ds) = run_outcome(m, 3);
            &&& loaded(m2, code, vals)
            &&& m2.pc == 4 * (idx + 3)
            &&& texts(ds) == seq![print_text(m.regs[temp_reg(0) as int])]
            &&& no_errors(ds)
        }),
{
    let v = m.regs[temp_reg(0) as int];
    lemma_fetch_at(m, code, idx);
    let m1 = step_outcome(m).0;
    assert(m1.regs[A0 as int] == v);
    lemma_fetch_at(m1, code, idx + 1);
    let m2 = step_outcome(m1).0;
    assert(m2.regs[A0 as int] == v && m2.regs[A7 as int] == 1);
    lemma_fetch_at(m2, code, idx + 2);
    let m3 = step_outcome(m2).0;
    crate::meaning::lemma_run_split(m, 1, 1);
    crate::meaning::lemma_run_split(m, 2, 1);
    let d1 = step_outcome(m).1;
    let d2 = step_outcome(m1).1;
    let d3 = step_outcome(m2).1;
    assert(run_outcome(m, 3).1 =~= seq![d1, d2, d3]);
    assert(d3.output == Some(print_text(v)));
    lemma_texts_one(d1);
    lemma_texts_one(d2);
    lemma_texts_one(d3);
    assert(seq![d1, d2, d3] =~= seq![d1] + seq![d2] + seq![d3]);
    lemma_texts_concat(seq![d1], seq![d2]);
    lemma_texts_concat(seq![d1] + seq![d2], seq![d3]);
    assert(Seq::<Seq<char>>::empty() + Seq::<Seq<char>>::empty() + seq![print_text(v)] =~= seq![print_text(v)]);
    let three = seq![d1, d2, d3];
    assert forall|i: int| 0 <= i < three.len() implies (#[trigger] three[i]).error is None by {
        if i == 0 {
            assert(three[0] == d1);
        } else if i == 1 {
            assert(three[1] == d2);
        } else {
            assert(three[2] == d3);
        }
    }
    assert(slots_hold(m3, vals));
}

/// Running `a` cycles and then `b` more is running `a + b` cycles: the
/// texts follow one another, and neither part faulting means the whole did
/// not.
proof fn lemma_then(m: Machine, a: nat, b: nat)
    requires
        !run_outcome(m, a).0.halted,
    ensures
        run_outcome(m, a + b).0 == run_outcome(run_outcome(m, a).0, b).0,
        texts(run_outcome(m, a + b).1) == texts(run_outcome(m, a).1) + texts(
            run_outcome(run_outcome(m, a).0, b).1,
        ),
        no_errors(run_outcome(m, a).1) && no_errors(run_outcome(run_outcome(m, a).0, b).1) ==> no_errors(
            run_outcome(m, a + b).1,
        ),
{
    crate::meaning::lemma_run_split(m, a, b);
    let x = run_outcome(m, a).1;
    let y = run_outcome(run_outcome(m, a).0, b).1;
    lemma_texts_concat(x, y);
    if no_errors(x) && no_errors(y) {
        assert forall|i: int| 0 <= i < (x + y).len() implies (#[trigger] (x + y)[i]).error is None by {
            if i < x.len() {
                assert((x + y)[i] == x[i]);
            } else {
                assert((x + y)[i] == y[i - x.len()]);
            }
        }
    }
}

/// A branch on `t0 == 0` by `n` instructions.
proof fn lemma_beq_piece(m: Machine, code: Seq<Emitted>, vals: Seq<i32>, idx: int, n: int)
    requires
        loaded(m, code, vals),
        0 <= idx < code.len(),
        m.pc == 4 * idx,
        code[idx].instr == (Instr::Beq { rs1: temp_reg(0), rs2: ZERO, offset: words(n) }),
        0 <= idx + n <= code.len(),
    ensures
        ({
            let (m2, ds) = run_outcome(m, 1);
            &&& loaded(m2, code, vals)
            &&& m2.pc == 4 * (if m.regs[temp_reg(0) as int] == 0 { idx + n } else { idx + 1 })
            &&& m2.regs == m.regs
            &&& texts(ds) == Seq::<Seq<char>>::empty()
            &&& no_errors(ds)
        }),
{
    lemma_fetch_at(m, code, idx);
    crate::codegen::lemma_words(n);
    lemma_jump(m.pc, words(n));
    lemma_texts_one(step_outcome(m).1);
    assert(slots_hold(run_outcome(m, 1).0, vals));
}

/// A jump by `n` instructions.
proof fn lemma_jal_piece(m: Machine, code: Seq<Emitted>, vals: Seq<i32>, idx: int, n: int)
    requires
        loaded(m, code, vals),
        0 <= idx < code.len(),
        m.pc == 4 * idx,
        code[idx].instr == (Instr::Jal { rd: ZERO, offset: words(n) }),
        0 <= idx + n <= code.len(),
    ensures
        ({
            let (m2, ds) = run_outcome(m, 1);
            &&& loaded(m2, code, vals)
            &&& m2.pc == 4 * (idx + n)
            &&& m2.regs == m.regs
            &&& texts(ds) == Seq::<Seq<char>>::empty()
            &&& no_errors(ds)
        }),
{
    lemma_fetch_at(m, code, idx);
    crate::codegen::lemma_words(n);
    lemma_jump(m.pc, words(n));
    lemma_texts_one(step_outcome(m).1);
    assert(slots_hold(run_outcome(m, 1).0, vals));
}


// ---- statements ------------------------------------------------------------------

/// The texts that printing `out` one value after another produces.
pub open spec fn printed(out: Seq<i32>) -> Seq<Seq<char>> {
    out.map_values(|v: i32| print_text(v))
}

proof fn lemma_printed_concat(a: Seq<i32>, b: Seq<i32>)
    ensures
        printed(a + b) == printed(a) + printed(b),
        printed(Seq::empty()) == Seq::<Seq<char>>::empty(),
{
    assert(printed(a + b) =~= printed(a) + printed(b));
    assert(printed(Seq::empty()) =~= Seq::<Seq<char>>::empty());
}

/// A part of code placed at `base` sits at `base` plus its offset.
proof fn lemma_part(code: Seq<Emitted>, base: int, full: Seq<Emitted>, i: int, j: int)
    requires
        0 <= base,
        base + full.len() <= code.len(),
        code.subrange(base, base + full.len()) == full,
        0 <= i <= j <= full.len(),
    ensures
        code.subrange(base + i, base + j) == full.subrange(i, j),
{
    assert forall|k: int| 0 <= k < j - i implies #[trigger] code.subrange(base + i, base + j)[k] == full.subrange(
        i,
        j,
    )[k] by {
        assert(code.subrange(base, base + full.len())[i + k] == code[base + i + k]);
    }
    assert(code.subrange(base + i, base + j) =~= full.subrange(i, j));
}

proof fn lemma_at(code: Seq<Emitted>, base: int, full: Seq<Emitted>, k: int)
    requires
        0 <= base,
        base + full.len() <= code.len(),
        code.subrange(base, base + full.len()) == full,
        0 <= k < full.len(),
    ensures
        code[base + k] == full[k],
{
    assert(code.subrange(base, base + full.len())[k] == code[base + k]);
}

/// Storing an expression into slot `k`: the code of `e` then `sw t0, 4k(gp)`.
proof fn lemma_store_runs(
    e: ExprV,
    evars: Seq<Seq<char>>,
    k: int,
    vals: Seq<i32>,
    m: Machine,
    code: Seq<Emitted>,
    base: int,
    full: Seq<Emitted>,
)
    requires
        loaded(m, code, vals),
        evars.len() <= vals.len(),
        0 <= k < vals.len(),
        expr_code(e, 0, evars) is Ok,
        full.len() == expr_code(e, 0, evars)->Ok_0.len() + 1,
        full.subrange(0, full.len() - 1) == expr_code(e, 0, evars)->Ok_0,
        full[full.len() - 1].instr == (Instr::Sw { rs1: GP, rs2: temp_reg(0), imm: (k * 4) as i32 }),
        0 <= base,
        base + full.len() <= code.len(),
        code.subrange(base, base + full.len()) == full,
        m.pc == 4 * base,
    ensures
        ({
            let (m2, ds) = run_outcome(m, full.len());
            &&& loaded(m2, code, vals.update(k, expr_value(e, evars, vals)))
            &&& m2.pc == 4 * (base + full.len())
            &&& texts(ds) == Seq::<Seq<char>>::empty()
            &&& no_errors(ds)
        }),
{
    let c = expr_code(e, 0, evars)->Ok_0;
    lemma_part(code, base, full, 0, c.len() as int);
    lemma_expr_piece(e, evars, vals, m, code, base);
    let m1 = run_outcome(m, c.len()).0;
    lemma_at(code, base, full, c.len() as int);
    lemma_store_piece(m1, code, vals, base + c.len(), k);
    lemma_then(m, c.len(), 1);
    assert(Seq::<Seq<char>>::empty() + Seq::<Seq<char>>::empty() =~= Seq::<Seq<char>>::empty());
}

/// Printing an expression: its code then the print call.
proof fn lemma_print_runs(
    e: ExprV,
    vars: Seq<Seq<char>>,
    vals: Seq<i32>,
    m: Machine,
    code: Seq<Emitted>,
    base: int,
    full: Seq<Emitted>,
)
    requires
        loaded(m, code, vals),
        vars.len() <= vals.len(),
        expr_code(e, 0, vars) is Ok,
        full.len() == expr_code(e, 0, vars)->Ok_0.len() + 3,
        full.subrange(0, full.len() - 3) == expr_code(e, 0, vars)->Ok_0,
        full[full.len() - 3].instr == (Instr::Addi { rd: A0, rs1: temp_reg(0), imm: 0 }),
        full[full.len() - 2].instr == (Instr::Addi { rd: A7, rs1: ZERO, imm: SYSCALL_PRINT_INT }),
        full[full.len() - 1].instr == Instr::Ecall,
        0 <= base,
        base + full.len() <= code.len(),
        code.subrange(base, base + full.len()) == full,
        m.pc == 4 * base,
    ensures
        ({
            let (m2, ds) = run_outcome(m, full.len());
            &&& loaded(m2, code, vals)
            &&& m2.pc == 4 * (base + full.len())
            &&& texts(ds) == printed(seq![expr_value(e, vars, vals)])
            &&& no_errors(ds)
        }),
{
    let c = expr_code(e, 0, vars)->Ok_0;
    lemma_part(code, base, full, 0, c.len() as int);
    lemma_expr_piece(e, vars, vals, m, code, base);
    let m1 = run_outcome(m, c.len()).0;
    lemma_at(code, base, full, c.len() as int);
    lemma_at(code, base, full, c.len() + 1int);
    lemma_at(code, base, full, c.len() + 2int);
    lemma_print_piece(m1, code, vals, base + c.len());
    lemma_then(m, c.len(), 3);
    let v = expr_value(e, vars, vals);
    assert(printed(seq![v]) =~= seq![print_text(v)]);
    assert(Seq::<Seq<char>>::empty() + seq![print_text(v)] =~= seq![print_text(v)]);
}


/// `c` sits in `code` from index `base` on.
pub open spec fn placed(code: Seq<Emitted>, base: int, c: Seq<Emitted>) -> bool {
    &&& 0 <= base
    &&& base + c.len() <= code.len()
    &&& code.subrange(base, base + c.len()) == c
}

/// `n` cycles from `m` end at instruction `end` of the loaded program `code`,
/// with the slots holding `vals`, having printed `out` and faulted nowhere.
pub open spec fn ran(m: Machine, n: nat, code: Seq<Emitted>, vals: Seq<i32>, end: int, out: Seq<i32>) -> bool {
    let (m2, ds) = run_outcome(m, n);
    &&& loaded(m2, code, vals)
    &&& m2.pc == 4 * end
    &&& texts(ds) == printed(out)
    &&& no_errors(ds)
}

proof fn lemma_empty_texts(x: Seq<Seq<char>>)
    ensures
        Seq::<Seq<char>>::empty() + x == x,
        x + Seq::<Seq<char>>::empty() == x,
{
    assert(Seq::<Seq<char>>::empty() + x =~= x);
    assert(x + Seq::<Seq<char>>::empty() =~= x);
}

/// The code of a statement, placed in a loaded program, runs the statement.
proof fn lemma_stmt_runs(
    s: StmtV,
    vars: Seq<Seq<char>>,
    vals: Seq<i32>,
    fuel: nat,
    m: Machine,
    code: Seq<Emitted>,
    base: int,
) -> (n: nat)
    requires
        loaded(m, code, vals),
        stmt_code(s, vars) is Ok,
        declared(s, vars).len() <= vals.len(),
        exec_stmt(s, vars, vals, fuel) is Some,
        placed(code, base, stmt_code(s, vars)->Ok_0.0),
        m.pc == 4 * base,
    ensures
        exec_stmt(s, vars, vals, fuel)->Some_0.0.len() == vals.len(),
        ran(
            m,
            n,
            code,
            exec_stmt(s, vars, vals, fuel)->Some_0.0,
            base + stmt_code(s, vars)->Ok_0.0.len(),
            exec_stmt(s, vars, vals, fuel)->Some_0.1,
        ),
    decreases fuel, s, 2nat,
{
    lemma_declared_code(s, vars);
    lemma_printed_concat(Seq::empty(), Seq::empty());
    let full = stmt_code(s, vars)->Ok_0.0;
    match s.kind {
        StmtKindV::Let { name, init } => {
            let ev = vars.push(name);
            assert(full.subrange(0, full.len() - 1) =~= expr_code(init, 0, ev)->Ok_0);
            lemma_store_runs(init, ev, vars.len() as int, vals, m, code, base, full);
            full.len()
        },
        StmtKindV::Assign { name, value } => {
            crate::codegen::lemma_find_var(vars, name, 0);
            let k = slot_of(vars, name).unwrap();
            assert(full.subrange(0, full.len() - 1) =~= expr_code(value, 0, vars)->Ok_0);
            lemma_store_runs(value, vars, k, vals, m, code, base, full);
            full.len()
        },
        StmtKindV::Print { value } => {
            assert(full.subrange(0, full.len() - 3) =~= expr_code(value, 0, vars)->Ok_0);
            lemma_print_runs(value, vars, vals, m, code, base, full);
            full.len()
        },
        StmtKindV::If { .. } => lemma_if_runs(s, vars, vals, fuel, m, code, base),
        StmtKindV::While { .. } => lemma_while_runs(s, vars, vals, fuel, m, code, base),
    }
}

/// The code of an `if`, placed in a loaded program, runs it.
proof fn lemma_if_runs(
    s: StmtV,
    vars: Seq<Seq<char>>,
    vals: Seq<i32>,
    fuel: nat,
    m: Machine,
    code: Seq<Emitted>,
    base: int,
) -> (n: nat)
    requires
        s.kind is If,
        loaded(m, code, vals),
        stmt_code(s, vars) is Ok,
        declared(s, vars).len() <= vals.len(),
        exec_stmt(s, vars, vals, fuel) is Some,
        placed(code, base, stmt_code(s, vars)->Ok_0.0),
        m.pc == 4 * base,
    ensures
        exec_stmt(s, vars, vals, fuel)->Some_0.0.len() == vals.len(),
        ran(
            m,
            n,
            code,
            exec_stmt(s, vars, vals, fuel)->Some_0.0,
            base + stmt_code(s, vars)->Ok_0.0.len(),
            exec_stmt(s, vars, vals, fuel)->Some_0.1,
        ),
    decreases fuel, s, 1nat,
{
    let cond = s.kind->If_cond;
    let then_body = s.kind->If_then_body;
    let else_body = s.kind->If_else_body;
    lemma_declared_code(s, vars);
    let full = stmt_code(s, vars)->Ok_0.0;
    let c = expr_code(cond, 0, vars)->Ok_0;
    let t = stmts_code(then_body, vars)->Ok_0.0;
    let vars1 = stmts_code(then_body, vars)->Ok_0.1;
    lemma_declared_all_code(then_body, vars);
    lemma_printed_concat(Seq::empty(), Seq::empty());
    lemma_empty_texts(Seq::empty());
    lemma_part(code, base, full, 0, c.len() as int);
    assert(full.subrange(0, c.len() as int) =~= c);
    lemma_expr_piece(cond, vars, vals, m, code, base);
    let m1 = run_outcome(m, c.len()).0;
    let v = expr_value(cond, vars, vals);
    lemma_at(code, base, full, c.len() as int);
    let tb: int = c.len() + 1int;
    match else_body {
        None => {
            lemma_beq_piece(m1, code, vals, base + c.len(), t.len() + 1int);
            lemma_then(m, c.len(), 1);
            let m2 = run_outcome(m, tb as nat).0;
            if v != 0 {
                lemma_part(code, base, full, tb, full.len() as int);
                assert(full.subrange(tb, full.len() as int) =~= t);
                let n3 = lemma_stmts_runs(then_body, vars, vals, fuel, m2, code, base + tb);
                lemma_then(m, tb as nat, n3);
                lemma_empty_texts(texts(run_outcome(m2, n3).1));
                (tb + n3) as nat
            } else {
                tb as nat
            }
        },
        Some(b) => {
            let e = stmts_code(b, vars1)->Ok_0.0;
            lemma_declared_all_code(b, vars1);
            lemma_beq_piece(m1, code, vals, base + c.len(), t.len() + 2int);
            lemma_then(m, c.len(), 1);
            let m2 = run_outcome(m, tb as nat).0;
            if v != 0 {
                lemma_part(code, base, full, tb, tb + t.len());
                assert(full.subrange(tb, tb + t.len()) =~= t);
                let n3 = lemma_stmts_runs(then_body, vars, vals, fuel, m2, code, base + tb);
                lemma_then(m, tb as nat, n3);
                let m3 = run_outcome(m, (tb + n3) as nat).0;
                let out = exec_stmts(then_body, vars, vals, fuel)->Some_0;
                lemma_at(code, base, full, tb + t.len());
                lemma_jal_piece(m3, code, out.0, base + tb + t.len(), e.len() + 1int);
                lemma_then(m, (tb + n3) as nat, 1);
                lemma_empty_texts(printed(out.1));
                (tb + n3 + 1) as nat
            } else {
                let eb: int = tb + t.len() + 1;
                lemma_part(code, base, full, eb, full.len() as int);
                assert(full.subrange(eb, full.len() as int) =~= e);
                let n3 = lemma_stmts_runs(b, vars1, vals, fuel, m2, code, base + eb);
                lemma_then(m, tb as nat, n3);
                lemma_empty_texts(texts(run_outcome(m2, n3).1));
                (tb + n3) as nat
            }
        },
    }
}

/// The code of a `while`, placed in a loaded program, runs it.
proof fn lemma_while_runs(
    s: StmtV,
    vars: Seq<Seq<char>>,
    vals: Seq<i32>,
    fuel: nat,
    m: Machine,
    code: Seq<Emitted>,
    base: int,
) -> (n: nat)
    requires
        s.kind is While,
        loaded(m, code, vals),
        stmt_code(s, vars) is Ok,
        declared(s, vars).len() <= vals.len(),
        exec_stmt(s, vars, vals, fuel) is Some,
        placed(code, base, stmt_code(s, vars)->Ok_0.0),
        m.pc == 4 * base,
    ensures
        exec_stmt(s, vars, vals, fuel)->Some_0.0.len() == vals.len(),
        ran(
            m,
            n,
            code,
            exec_stmt(s, vars, vals, fuel)->Some_0.0,
            base + stmt_code(s, vars)->Ok_0.0.len(),
            exec_stmt(s, vars, vals, fuel)->Some_0.1,
        ),
    decreases fuel, s, 1nat,
{
    let cond = s.kind->While_cond;
    let body = s.kind->While_body;
    lemma_declared_code(s, vars);
    let full = stmt_code(s, vars)->Ok_0.0;
    let c = expr_code(cond, 0, vars)->Ok_0;
    let b = stmts_code(body, vars)->Ok_0.0;
    lemma_declared_all_code(body, vars);
    lemma_printed_concat(Seq::empty(), Seq::empty());
    lemma_empty_texts(Seq::empty());
    lemma_part(code, base, full, 0, c.len() as int);
    assert(full.subrange(0, c.len() as int) =~= c);
    lemma_expr_piece(cond, vars, vals, m, code, base);
    let m1 = run_outcome(m, c.len()).0;
    let v = expr_value(cond, vars, vals);
    lemma_at(code, base, full, c.len() as int);
    let tb: int = c.len() + 1int;
    lemma_beq_piece(m1, code, vals, base + c.len(), b.len() + 2int);
    lemma_then(m, c.len(), 1);
    let m2 = run_outcome(m, tb as nat).0;
    if v == 0 {
        tb as nat
    } else {
        lemma_part(code, base, full, tb, tb + b.len());
        assert(full.subrange(tb, tb + b.len()) =~= b);
        let n3 = lemma_stmts_runs(body, vars, vals, fuel, m2, code, base + tb);
        lemma_then(m, tb as nat, n3);
        let m3 = run_outcome(m, (tb + n3) as nat).0;
        let (v1, o1) = exec_stmts(body, vars, vals, fuel)->Some_0;
        lemma_at(code, base, full, tb + b.len());
        lemma_jal_piece(m3, code, v1, base + tb + b.len(), -(c.len() + 1 + b.len()));
        lemma_then(m, (tb + n3) as nat, 1);
        let m4 = run_outcome(m, (tb + n3 + 1) as nat).0;
        let n5 = lemma_stmt_runs(s, vars, v1, (fuel - 1) as nat, m4, code, base);
        lemma_then(m, (tb + n3 + 1) as nat, n5);
        let (v2, o2) = exec_stmt(s, vars, v1, (fuel - 1) as nat)->Some_0;
        lemma_printed_concat(o1, o2);
        lemma_empty_texts(printed(o1));
        (tb + n3 + 1 + n5) as nat
    }
}

/// The code of a statement list, placed in a loaded program, runs it.
proof fn lemma_stmts_runs(
    ss: Seq<StmtV>,
    vars: Seq<Seq<char>>,
    vals: Seq<i32>,
    fuel: nat,
    m: Machine,
    code: Seq<Emitted>,
    base: int,
) -> (n: nat)
    requires
        loaded(m, code, vals),
        stmts_code(ss, vars) is Ok,
        declared_all(ss, vars).len() <= vals.len(),
        exec_stmts(ss, vars, vals, fuel) is Some,
        placed(code, base, stmts_code(ss, vars)->Ok_0.0),
        m.pc == 4 * base,
    ensures
        exec_stmts(ss, vars, vals, fuel)->Some_0.0.len() == vals.len(),
        ran(
            m,
            n,
            code,
            exec_stmts(ss, vars, vals, fuel)->Some_0.0,
            base + stmts_code(ss, vars)->Ok_0.0.len(),
            exec_stmts(ss, vars, vals, fuel)->Some_0.1,
        ),
    decreases fuel, ss, 3nat,
{
    lemma_printed_concat(Seq::empty(), Seq::empty());
    if ss.len() == 0 {
        assert(no_errors(Seq::<Delta>::empty()));
        0
    } else {
        let full = stmts_code(ss, vars)->Ok_0.0;
        let c0 = stmt_code(ss[0], vars)->Ok_0.0;
        let vars1 = stmt_code(ss[0], vars)->Ok_0.1;
        let rest = stmts_code(ss.drop_first(), vars1)->Ok_0.0;
        lemma_declared_code(ss[0], vars);
        lemma_declared_all_code(ss.drop_first(), vars1);
        lemma_part(code, base, full, 0, c0.len() as int);
        assert(full.subrange(0, c0.len() as int) =~= c0);
        let n1 = lemma_stmt_runs(ss[0], vars, vals, fuel, m, code, base);
        let m1 = run_outcome(m, n1).0;
        let (v1, o1) = exec_stmt(ss[0], vars, vals, fuel)->Some_0;
        lemma_part(code, base, full, c0.len() as int, full.len() as int);
        assert(full.subrange(c0.len() as int, full.len() as int) =~= rest);
        let n2 = lemma_stmts_runs(ss.drop_first(), vars1, v1, fuel, m1, code, base + c0.len());
        lemma_then(m, n1, n2);
        let (v2, o2) = exec_stmts(ss.drop_first(), vars1, v1, fuel)->Some_0;
        lemma_printed_concat(o1, o2);
        n1 + n2
    }
}


// ---- whole programs -----------------------------------------------------------------

/// The machine words of `code`, little-endian, one after the other: the
/// bytes a program is loaded from.
pub open spec fn code_image(code: Seq<Emitted>) -> Seq<u8> {
    Seq::new(4 * code.len(), |i: int| word_bytes(encoding(code[i / 4].instr))[i % 4])
}

/// `n` variables, all 0.
pub open spec fn zeros(n: nat) -> Seq<i32> {
    Seq::new(n, |i: int| 0i32)
}

proof fn bv_word_back(w: u32, b0: u8, b1: u8, b2: u8, b3: u8)
    by (bit_vector)
    requires
        b0 == (w & 0xffu32) as u8,
        b1 == ((w >> 8u32) & 0xffu32) as u8,
        b2 == ((w >> 16u32) & 0xffu32) as u8,
        b3 == ((w >> 24u32) & 0xffu32) as u8,
    ensures
        ((b0 as u32) | ((b1 as u32) << 8u32) | ((b2 as u32) << 16u32) | ((b3 as u32) << 24u32)) as i32
            == w as i32,
{
}

/// A freshly loaded image of `code` holds its machine words from address 0.
proof fn lemma_image_loaded(code: Seq<Emitted>)
    requires
        4 * code.len() <= MEM_SIZE,
        forall|k: int| 0 <= k < code.len() ==> fits_fields(#[trigger] code[k].instr),
    ensures
        code_at(boot_state(code_image(code)).mem, 0, code),
{
    let img = code_image(code);
    let mem = boot_state(img).mem;
    assert forall|k: int| 0 <= k < code.len() implies read_word_at(mem, (0 + 4 * k) as u32) == Some(
        encoding((#[trigger] code[k]).instr) as i32,
    ) && fits_fields(code[k].instr) by {
        let w = encoding(code[k].instr);
        let a = 4 * k;
        assert((a + 0) / 4 == k && (a + 0) % 4 == 0);
        assert((a + 1) / 4 == k && (a + 1) % 4 == 1);
        assert((a + 2) / 4 == k && (a + 2) % 4 == 2);
        assert((a + 3) / 4 == k && (a + 3) % 4 == 3);
        assert(mem[a] == img[a] && mem[a + 1] == img[a + 1] && mem[a + 2] == img[a + 2] && mem[a + 3]
            == img[a + 3]);
        bv_word_back(w, mem[a], mem[a + 1], mem[a + 2], mem[a + 3]);
    }
}

/// The prologue, run on a freshly loaded image of `code`, points `gp` at the
/// data section right after the code, whose slots all read 0.
proof fn lemma_boot(code: Seq<Emitted>, nv: nat)
    requires
        code.len() >= 2,
        4 * code.len() + 4 * nv <= MEM_SIZE,
        forall|k: int| 0 <= k < code.len() ==> fits_fields(#[trigger] code[k].instr),
        code[0].instr == (Instr::Lui { rd: GP, imm: hi_part((4 * code.len()) as i32) }),
        code[1].instr == (Instr::Addi { rd: GP, rs1: GP, imm: lo_part((4 * code.len()) as i32) }),
    ensures
        ({
            let (m2, ds) = run_outcome(boot_state(code_image(code)), 2);
            &&& loaded(m2, code, zeros(nv))
            &&& m2.pc == 8
            &&& texts(ds) == Seq::<Seq<char>>::empty()
            &&& no_errors(ds)
        }),
{
    let img = code_image(code);
    let m0 = boot_state(img);
    let base = (4 * code.len()) as i32;
    let vals0 = zeros(nv);
    crate::codegen::lemma_hi_lo(base);
    lemma_image_loaded(code);
    lemma_fetch_at(m0, code, 0);
    let m1 = step_outcome(m0).0;
    lemma_fetch_at(m1, code, 1);
    let m2 = step_outcome(m1).0;
    lemma_texts_one(step_outcome(m0).1);
    lemma_texts_one(step_outcome(m1).1);
    lemma_then(m0, 1, 1);
    lemma_empty_texts(Seq::empty());
    assert(m2.regs[GP as int] == base);
    assert forall|k: int| 0 <= k < vals0.len() implies read_word_at(
        m2.mem,
        (m2.regs[GP as int].wrapping_add((k * 4) as i32)) as u32,
    ) == Some(#[trigger] vals0[k]) by {
        lemma_slot_addr(m2.regs[GP as int], k);
        crate::vm::lemma_boot_vars_zero(img, k as nat);
    }
}

/// The epilogue halts through the exit call, touching neither memory nor
/// `gp`.
proof fn lemma_exit(m: Machine, code: Seq<Emitted>, vals: Seq<i32>)
    requires
        loaded(m, code, vals),
        code.len() >= 2,
        m.pc == 4 * (code.len() - 2),
        code[code.len() - 2].instr == (Instr::Addi { rd: A7, rs1: ZERO, imm: SYSCALL_EXIT }),
        code[code.len() - 1].instr == Instr::Ecall,
    ensures
        ({
            let (m2, ds) = run_outcome(m, 2);
            &&& m2.halted
            &&& m2.pc == 4 * code.len()
            &&& m2.mem == m.mem
            &&& m2.regs[GP as int] == m.regs[GP as int]
            &&& texts(ds) == Seq::<Seq<char>>::empty()
            &&& no_errors(ds)
        }),
{
    let e = code.len() - 2;
    lemma_fetch_at(m, code, e);
    let m1 = step_outcome(m).0;
    lemma_fetch_at(m1, code, e + 1);
    lemma_texts_one(step_outcome(m).1);
    lemma_texts_one(step_outcome(m1).1);
    lemma_then(m, 1, 1);
    lemma_empty_texts(Seq::empty());
}

/// Compiled programs mean what their source says: if a program runs under
/// the reference semantics (variables starting at 0) and prints `out`,
/// then stepping the CPU loaded with its machine code prints exactly those
/// values, each in decimal and followed by a newline, in order, never
/// faults, halts on the exit call at the end of the code, and leaves each
/// variable's slot holding the variable's final value. This holds whenever
/// the code and its data fit in memory and every instruction fits its
/// encoding.
pub proof fn lemma_program_meaning(prog: Seq<StmtV>, fuel: nat) -> (n: nat)
    requires
        program_code(prog) is Ok,
        4 * program_code(prog)->Ok_0.0.len() + 4 * program_code(prog)->Ok_0.1.len() <= MEM_SIZE,
        forall|k: int|
            0 <= k < program_code(prog)->Ok_0.0.len() ==> fits_fields(
                #[trigger] program_code(prog)->Ok_0.0[k].instr,
            ),
        exec_stmts(prog, Seq::empty(), zeros(program_code(prog)->Ok_0.1.len()), fuel) is Some,
    ensures
        ({
            let (code, vars) = program_code(prog)->Ok_0;
            let (vals, out) = exec_stmts(prog, Seq::empty(), zeros(vars.len()), fuel)->Some_0;
            let (m, ds) = run_outcome(boot_state(code_image(code)), n);
            &&& m.halted
            &&& m.pc == 4 * code.len()
            &&& texts(ds) == printed(out)
            &&& no_errors(ds)
            &&& vals.len() == vars.len()
            &&& forall|j: int|
                0 <= j < vars.len() ==> read_word_at(m.mem, (4 * code.len() + 4 * j) as u32) == Some(
                    #[trigger] vals[j],
                )
        }),
{
    let (code, vars) = program_code(prog)->Ok_0;
    let body = stmts_code(prog, Seq::empty())->Ok_0.0;
    let vals0 = zeros(vars.len());
    let m0 = boot_state(code_image(code));
    lemma_declared_all_code(prog, Seq::empty());
    crate::codegen::lemma_prologue_points_past_code(prog);
    lemma_boot(code, vars.len());
    let m2 = run_outcome(m0, 2).0;
    assert(code.subrange(2, 2 + body.len() as int) =~= body);
    let nb = lemma_stmts_runs(prog, Seq::empty(), vals0, fuel, m2, code, 2);
    let (vals, out) = exec_stmts(prog, Seq::empty(), vals0, fuel)->Some_0;
    lemma_then(m0, 2, nb);
    let m3 = run_outcome(m0, 2 + nb).0;
    lemma_exit(m3, code, vals);
    lemma_then(m0, 2 + nb, 2);
    let m5 = run_outcome(m3, 2).0;
    lemma_empty_texts(printed(out));
    assert forall|j: int| 0 <= j < vars.len() implies read_word_at(
        m5.mem,
        (4 * code.len() + 4 * j) as u32,
    ) == Some(#[trigger] vals[j]) by {
        lemma_slot_addr(m3.regs[GP as int], j);
        assert(read_word_at(m3.mem, (m3.regs[GP as int].wrapping_add((j * 4) as i32)) as u32) == Some(vals[j]));
    }
    2 + nb + 2
}


proof fn lemma_rows_image(rows: Seq<AsmRow>, code: Seq<Emitted>)
    requires
        rows.len() == code.len(),
        forall|i: int| 0 <= i < rows.len() ==> (#[trigger] rows[i]).word == encoding(code[i].instr),
    ensures
        rows_bytes(rows) == code_image(code),
    decreases rows.len(),
{
    if rows.len() > 0 {
        let n = rows.len() - 1;
        let init = code.drop_last();
        assert forall|i: int| 0 <= i < rows.drop_last().len() implies (#[trigger] rows.drop_last()[i]).word
            == encoding(init[i].instr) by {
            assert(rows.drop_last()[i] == rows[i]);
        }
        lemma_rows_image(rows.drop_last(), init);
        assert(rows.last() == rows[n as int]);
        let whole = code_image(code);
        let parts = code_image(init) + word_bytes(encoding(code[n as int].instr));
        assert forall|i: int| 0 <= i < whole.len() implies #[trigger] whole[i] == parts[i] by {
            if i < 4 * n {
                assert(i / 4 < n);
                assert(init[i / 4] == code[i / 4]);
            } else {
                assert(i / 4 == n);
                assert(i % 4 == i - 4 * n);
            }
        }
        assert(whole =~= parts);
    }
}

/// The bytes a compilation is loaded from are the image of its code.
pub proof fn lemma_listing_image(
    c: Compilation,
    toks: Seq<TokenView>,
    prog: Seq<StmtV>,
    code: Seq<Emitted>,
    vars: Seq<Seq<char>>,
)
    requires
        compilation_is(c, toks, prog, code, vars),
    ensures
        rows_bytes(c.instrs@) == code_image(code),
{
    assert forall|i: int| 0 <= i < c.instrs@.len() implies (#[trigger] c.instrs@[i]).word == encoding(
        code[i].instr,
    ) by {
        assert(listing_row(c.instrs@[i], code[i], i));
    }
    lemma_rows_image(c.instrs@, code);
}

/// The meaning law for what `compile` returns: if the compiled source runs
/// under the reference semantics and prints `out`, a CPU booted from the
/// compilation's bytes prints exactly `out`, never faults, halts on the
/// exit call, and each listed variable's slot holds its final value.
pub proof fn lemma_compiled_meaning(src: Seq<u8>, c: Compilation, fuel: nat) -> (n: nat)
    requires
        compiled(src) is Ok,
        ({
            let (toks, prog, code, vars) = compiled(src)->Ok_0;
            &&& compilation_is(c, toks, prog, code, vars)
            &&& 4 * code.len() + 4 * vars.len() <= MEM_SIZE
            &&& forall|k: int| 0 <= k < code.len() ==> fits_fields(#[trigger] code[k].instr)
            &&& exec_stmts(prog, Seq::empty(), zeros(vars.len()), fuel) is Some
        }),
    ensures
        ({
            let (toks, prog, code, vars) = compiled(src)->Ok_0;
            let (vals, out) = exec_stmts(prog, Seq::empty(), zeros(vars.len()), fuel)->Some_0;
            let (m, ds) = run_outcome(boot_state(rows_bytes(c.instrs@)), n);
            &&& m.halted
            &&& texts(ds) == printed(out)
            &&& no_errors(ds)
            &&& vals.len() == c.vars@.len()
            &&& forall|j: int|
                0 <= j < c.vars@.len() ==> read_word_at(m.mem, (#[trigger] c.vars@[j]).addr) == Some(vals[j])
        }),
{
    let (toks, prog, code, vars) = compiled(src)->Ok_0;
    lemma_listing_image(c, toks, prog, code, vars);
    let n = lemma_program_meaning(prog, fuel);
    let (vals, out) = exec_stmts(prog, Seq::empty(), zeros(vars.len()), fuel)->Some_0;
    let m = run_outcome(boot_state(rows_bytes(c.instrs@)), n).0;
    assert forall|j: int| 0 <= j < c.vars@.len() implies read_word_at(m.mem, (#[trigger] c.vars@[j]).addr)
        == Some(vals[j]) by {
        assert(c.vars@[j].name@ == vars[j]);
        assert(c.vars@[j].addr == c.data_base + 4 * j);
        assert(read_word_at(m.mem, (4 * code.len() + 4 * j) as u32) == Some(vals[j]));
    }
    n
}


// ---- small programs fit their encodings -----------------------------------------------

/// The immediate of `instr` fits its field, a memory offset addressing one
/// of `nv` variable slots.
pub open spec fn imm_fits(instr: Instr, nv: nat) -> bool {
    match instr {
        Instr::Lui { imm, .. } => 0 <= imm < 0x100000,
        Instr::Addi { imm, .. } | Instr::Sltiu { imm, .. } | Instr::Xori { imm, .. } => -2048 <= imm <= 2047,
        Instr::Lw { imm, .. } | Instr::Sw { imm, .. } => 0 <= imm < 4 * nv,
        _ => true,
    }
}

pub open spec fn imms_fit(c: Seq<Emitted>, nv: nat) -> bool {
    forall|k: int| 0 <= k < c.len() ==> imm_fits(#[trigger] c[k].instr, nv)
}

proof fn lemma_imms_concat(c1: Seq<Emitted>, c2: Seq<Emitted>, nv: nat)
    requires
        imms_fit(c1, nv),
        imms_fit(c2, nv),
    ensures
        imms_fit(c1 + c2, nv),
{
    assert forall|k: int| 0 <= k < (c1 + c2).len() implies imm_fits(#[trigger] (c1 + c2)[k].instr, nv) by {
        if k < c1.len() {
            assert((c1 + c2)[k] == c1[k]);
        } else {
            assert((c1 + c2)[k] == c2[k - c1.len()]);
        }
    }
}

proof fn lemma_imms_grow(c: Seq<Emitted>, a: nat, b: nat)
    requires
        imms_fit(c, a),
        a <= b,
    ensures
        imms_fit(c, b),
{
    assert forall|k: int| 0 <= k < c.len() implies imm_fits(#[trigger] c[k].instr, b) by {
        assert(imm_fits(c[k].instr, a));
    }
}

proof fn lemma_expr_imms(e: ExprV, sp: nat, vars: Seq<Seq<char>>)
    requires
        vars.len() < 0x2000_0000,
    ensures
        expr_code(e, sp, vars) matches Ok(c) ==> imms_fit(c, vars.len()),
    decreases e,
{
    if let Ok(c) = expr_code(e, sp, vars) {
        match e.kind {
            ExprKindV::Int { value } => {
                crate::codegen::lemma_hi_lo(value);
            },
            ExprKindV::Var { name } => {
                crate::codegen::lemma_find_var(vars, name, 0);
                assert(imm_fits(c[0].instr, vars.len()));
            },
            ExprKindV::Unary { op, operand } => {
                lemma_expr_imms(*operand, sp, vars);
                let c0 = expr_code(*operand, sp, vars)->Ok_0;
                let neg = seq![c[c0.len() as int]];
                assert(c =~= c0 + neg);
                lemma_imms_concat(c0, neg, vars.len());
            },
            ExprKindV::Binary { op, lhs, rhs } => {
                lemma_expr_imms(*lhs, sp, vars);
                lemma_expr_imms(*rhs, sp + 1, vars);
                let c1 = expr_code(*lhs, sp, vars)->Ok_0;
                let c2 = expr_code(*rhs, sp + 1, vars)->Ok_0;
                let b = crate::codegen::binop_code(op, temp_reg(sp as int), temp_reg(sp + 1int), e.id, e.span);
                assert(imms_fit(b, vars.len()));
                assert(c =~= c1 + c2 + b);
                lemma_imms_concat(c1, c2, vars.len());
                lemma_imms_concat(c1 + c2, b, vars.len());
            },
        }
    }
}

proof fn lemma_stmt_imms(s: StmtV, vars: Seq<Seq<char>>)
    requires
        declared(s, vars).len() < 0x2000_0000,
    ensures
        stmt_code(s, vars) matches Ok((c, v)) ==> imms_fit(c, v.len()),
    decreases s, 0nat,
{
    lemma_declared_code(s, vars);
    if let Ok((c, v)) = stmt_code(s, vars) {
        match s.kind {
            StmtKindV::Let { name, init } => {
                lemma_expr_imms(init, 0, vars.push(name));
                let e = expr_code(init, 0, vars.push(name))->Ok_0;
                let tail = seq![c[c.len() - 1]];
                assert(c =~= e + tail);
                assert(imms_fit(tail, v.len()));
                lemma_imms_concat(e, tail, v.len());
            },
            StmtKindV::Assign { name, value } => {
                crate::codegen::lemma_find_var(vars, name, 0);
                lemma_expr_imms(value, 0, vars);
                let e = expr_code(value, 0, vars)->Ok_0;
                let tail = seq![c[c.len() - 1]];
                assert(c =~= e + tail);
                assert(imms_fit(tail, v.len()));
                lemma_imms_concat(e, tail, v.len());
            },
            StmtKindV::Print { value } => {
                lemma_expr_imms(value, 0, vars);
                let e = expr_code(value, 0, vars)->Ok_0;
                let tail = c.subrange(e.len() as int, c.len() as int);
                assert(c =~= e + tail);
                assert(imms_fit(tail, v.len()));
                lemma_imms_concat(e, tail, v.len());
            },
            StmtKindV::If { cond, then_body, else_body } => {
                lemma_expr_imms(cond, 0, vars);
                lemma_declared_all_code(then_body, vars);
                let e = expr_code(cond, 0, vars)->Ok_0;
                let (t, vars1) = stmts_code(then_body, vars)->Ok_0;
                let br = seq![c[e.len() as int]];
                assert(imms_fit(br, v.len()));
                lemma_imms_grow(e, vars.len(), v.len());
                match else_body {
                    None => {
                        lemma_stmts_imms(then_body, vars);
                        assert(c =~= e + br + t);
                        lemma_imms_concat(e, br, v.len());
                        lemma_imms_concat(e + br, t, v.len());
                    },
                    Some(b) => {
                        lemma_declared_all_code(b, vars1);
                        lemma_stmts_imms(then_body, vars);
                        lemma_stmts_imms(b, vars1);
                        let eb = stmts_code(b, vars1)->Ok_0.0;
                        lemma_imms_grow(t, vars1.len(), v.len());
                        let j = seq![c[(e.len() + 1 + t.len()) as int]];
                        assert(imms_fit(j, v.len()));
                        assert(c =~= e + br + t + j + eb);
                        lemma_imms_concat(e, br, v.len());
                        lemma_imms_concat(e + br, t, v.len());
                        lemma_imms_concat(e + br + t, j, v.len());
                        lemma_imms_concat(e + br + t + j, eb, v.len());
                    },
                }
            },
            StmtKindV::While { cond, body } => {
                lemma_expr_imms(cond, 0, vars);
                lemma_declared_all_code(body, vars);
                lemma_stmts_imms(body, vars);
                let e = expr_code(cond, 0, vars)->Ok_0;
                let b = stmts_code(body, vars)->Ok_0.0;
                lemma_imms_grow(e, vars.len(), v.len());
                let br = seq![c[e.len() as int]];
                let j = seq![c[c.len() - 1]];
                assert(imms_fit(br, v.len()));
                assert(imms_fit(j, v.len()));
                assert(c =~= e + br + b + j);
                lemma_imms_concat(e, br, v.len());
                lemma_imms_concat(e + br, b, v.len());
                lemma_imms_concat(e + br + b, j, v.len());
            },
        }
    }
}

proof fn lemma_stmts_imms(ss: Seq<StmtV>, vars: Seq<Seq<char>>)
    requires
        declared_all(ss, vars).len() < 0x2000_0000,
    ensures
        stmts_code(ss, vars) matches Ok((c, v)) ==> imms_fit(c, v.len()),
    decreases ss, 1nat,
{
    if ss.len() > 0 {
        lemma_declared_code(ss[0], vars);
        let vars1 = declared(ss[0], vars);
        lemma_declared_all_code(ss.drop_first(), vars1);
        lemma_stmt_imms(ss[0], vars);
        if let Ok((c, v1)) = stmt_code(ss[0], vars) {
            lemma_stmts_imms(ss.drop_first(), v1);
            if let Ok((rest, v2)) = stmts_code(ss.drop_first(), v1) {
                lemma_imms_grow(c, v1.len(), v2.len());
                lemma_imms_concat(c, rest, v2.len());
            }
        }
    }
}


/// Small programs fit their encodings: in a compiled program of at most
/// 1024 instructions and 512 variables, every register, immediate and
/// branch offset fits the field it is encoded in.
pub proof fn lemma_small_programs_fit(prog: Seq<StmtV>)
    requires
        3 * stmts_size(prog) + 4 <= MAX_INSTRS,
        program_code(prog) is Ok,
        program_code(prog)->Ok_0.0.len() <= 1024,
        program_code(prog)->Ok_0.1.len() <= 512,
    ensures
        forall|k: int|
            0 <= k < program_code(prog)->Ok_0.0.len() ==> fits_fields(
                #[trigger] program_code(prog)->Ok_0.0[k].instr,
            ),
{
    let (code, vars) = program_code(prog)->Ok_0;
    let body = stmts_code(prog, Seq::empty())->Ok_0.0;
    crate::codegen::lemma_program_code_regs(prog);
    crate::codegen::lemma_jumps_land_in_code(prog);
    crate::codegen::lemma_prologue_points_past_code(prog);
    lemma_declared_all_code(prog, Seq::empty());
    lemma_stmts_imms(prog, Seq::empty());
    crate::codegen::lemma_hi_lo((code.len() * 4) as i32);
    assert forall|k: int| 0 <= k < code.len() implies fits_fields(#[trigger] code[k].instr) by {
        assert(regs_in_range(code[k].instr));
        if 2 <= k < code.len() - 2 {
            assert(code[k] == body[k - 2]);
            assert(imm_fits(body[k - 2].instr, vars.len()));
        }
        if let Some(off) = crate::codegen::jump_offset(code[k].instr) {
            assert(off % 4 == 0 && 0 <= k + off / 4 < code.len());
        }
    }
}

} // verus!
