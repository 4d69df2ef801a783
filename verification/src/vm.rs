//! The top-level engine API: `compile()` gives every artifact, `Vm` runs the
//! machine code.
//!
//! One big payload at compile time, one small delta per executed cycle.
use vstd::prelude::*;
use crate::assembler::{decoding, encode, encoding, fits_fields, lemma_decode_encode};
use crate::ast::{NodeId, Stmt, StmtV, span_in, stmts_spans_in, stmts_view};
use crate::codegen::{Emitted, VarSlot, codegen, lemma_code_spans, lemma_program_code_regs, program_code, regs_ok, spans_in};
use crate::cpu::{Cpu, Delta, MEM_SIZE, Machine, StepDelta, boot_state, read_word_at, step_outcome, word_at};
use crate::ir::instr_text;
use crate::lexer::{Token, TokenView, lemma_token_count, lemma_tokens_placed, lex, lexed, token_views};
use crate::parser::{lemma_parsed_ids, lemma_parsed_spans, parse, parsed, tokens_in};
use crate::span::{CompileError, ErrorView, Span};
use vstd::string::StringSliceAdditionalSpecFns;

verus! {

/// Sources at most this many bytes long: their code then stays well within
/// the reach of 32-bit branch offsets and data addresses.
pub const MAX_SOURCE_LEN: usize = 0x0500_0000;

/// One row of the assembly/machine-code listing, with its provenance links.
#[derive(Debug, Clone)]
pub struct AsmRow {
    /// Address of this instruction (index * 4; code is loaded at 0).
    pub addr: u32,
    /// The actual 32-bit machine word.
    pub word: u32,
    /// Human-readable assembly text.
    pub assembly: String,
    /// AST node this instruction came from (`None` for prologue/epilogue).
    pub node: Option<NodeId>,
    /// Source span this instruction traces back to.
    pub span: Option<Span>,
}

/// Everything `compile()` produces, in one payload.
#[derive(Debug)]
pub struct Compilation {
    pub tokens: Vec<Token>,
    pub ast: Vec<Stmt>,
    pub instrs: Vec<AsmRow>,
    /// Variable slots in the data section.
    pub vars: Vec<VarSlot>,
    /// Where the data section starts (the code size in bytes).
    pub data_base: u32,
}

/// The four bytes of `w`, least significant first.
pub open spec fn word_bytes(w: u32) -> Seq<u8> {
    seq![
        (w & 0xffu32) as u8,
        ((w >> 8u32) & 0xffu32) as u8,
        ((w >> 16u32) & 0xffu32) as u8,
        ((w >> 24u32) & 0xffu32) as u8,
    ]
}

/// The machine words of the listing, one after the other, little-endian.
pub open spec fn rows_bytes(rows: Seq<AsmRow>) -> Seq<u8>
    decreases rows.len(),
{
    if rows.len() == 0 {
        Seq::empty()
    } else {
        rows_bytes(rows.drop_last()) + word_bytes(rows.last().word)
    }
}

/// Four bytes per instruction.
pub proof fn lemma_rows_bytes_len(rows: Seq<AsmRow>)
    ensures
        rows_bytes(rows).len() == 4 * rows.len(),
    decreases rows.len(),
{
    if rows.len() > 0 {
        lemma_rows_bytes_len(rows.drop_last());
    }
}

impl Compilation {
    /// The raw program bytes (little-endian words), as loaded into memory.
    pub fn bytes(&self) -> (b: Vec<u8>)
        ensures
            b@ == rows_bytes(self.instrs@),
    {
        let mut b: Vec<u8> = Vec::new();
        let mut i: usize = 0;
        while i < self.instrs.len()
            invariant
                i <= self.instrs@.len(),
                b@ == rows_bytes(self.instrs@.take(i as int)),
            decreases self.instrs@.len() - i,
        {
            let w = self.instrs[i].word;
            b.push((w & 0xffu32) as u8);
            b.push(((w >> 8u32) & 0xffu32) as u8);
            b.push(((w >> 16u32) & 0xffu32) as u8);
            b.push(((w >> 24u32) & 0xffu32) as u8);
            proof {
                assert(self.instrs@.take(i + 1).drop_last() =~= self.instrs@.take(i as int));
                assert(b@ =~= rows_bytes(self.instrs@.take(i + 1)));
            }
            i = i + 1;
        }
        assert(self.instrs@.take(i as int) =~= self.instrs@);
        b
    }
}

/// What compiling the source bytes `src` gives: the tokens, the AST, the
/// instructions and the variables, or the first error.
pub open spec fn compiled(src: Seq<u8>) -> Result<
    (Seq<TokenView>, Seq<StmtV>, Seq<Emitted>, Seq<Seq<char>>),
    ErrorView,
> {
    match lexed(src) {
        Err(e) => Err(e),
        Ok(toks) => match parsed(toks) {
            Err(e) => Err(e),
            Ok(prog) => match program_code(prog) {
                Err(e) => Err(e),
                Ok((code, vars)) => Ok((toks, prog, code, vars)),
            },
        },
    }
}

/// `row` lists the instruction `e` placed at index `i`: its address, its
/// machine word, its assembly text and its provenance.
pub open spec fn listing_row(row: AsmRow, e: Emitted, i: int) -> bool {
    &&& row.addr == i * 4
    &&& row.word == encoding(e.instr)
    &&& row.assembly@ == instr_text(e.instr, row.addr)
    &&& row.node == e.node
    &&& row.span == e.span
}

/// `c` holds the tokens `toks`, the AST `prog`, the listing of `code`, and
/// the variables `vars` in slots right after the code.
pub open spec fn compilation_is(
    c: Compilation,
    toks: Seq<TokenView>,
    prog: Seq<StmtV>,
    code: Seq<Emitted>,
    vars: Seq<Seq<char>>,
) -> bool {
    &&& token_views(c.tokens@) == toks
    &&& stmts_view(c.ast@) == prog
    &&& c.instrs@.len() == code.len()
    &&& forall|i: int| 0 <= i < code.len() ==> listing_row(#[trigger] c.instrs@[i], code[i], i)
    &&& c.data_base == code.len() * 4
    &&& c.vars@.len() == vars.len()
    &&& forall|i: int|
        0 <= i < vars.len() ==> #[trigger] c.vars@[i].name@ == vars[i] && c.vars@[i].addr
            == c.data_base + 4 * i
}

/// What compiling `src` gives: the compilation of every artifact, or the
/// first error.
pub open spec fn compile_gives(src: Seq<u8>, res: Result<Compilation, CompileError>) -> bool {
    match compiled(src) {
        Ok((toks, prog, code, vars)) => res matches Ok(c) && compilation_is(c, toks, prog, code, vars),
        Err(e) => res matches Err(x) && x@ == e,
    }
}

/// Source text to every compilation artifact, linked by provenance.
pub fn compile(src: &str) -> (res: Result<Compilation, CompileError>)
    requires
        src.spec_bytes().len() <= MAX_SOURCE_LEN,
    ensures
        compile_gives(src.spec_bytes(), res),
{
    let tokens = match lex(src) {
        Ok(t) => t,
        Err(e) => {
            return Err(e);
        },
    };
    proof {
        lemma_token_count(src.spec_bytes(), 0);
        assert(token_views(tokens@).len() == tokens@.len());
    }
    let ast = match parse(tokens.as_slice()) {
        Ok(a) => a,
        Err(e) => {
            return Err(e);
        },
    };
    proof {
        lemma_parsed_ids(token_views(tokens@));
    }
    let out = match codegen(ast.as_slice()) {
        Ok(o) => o,
        Err(e) => {
            return Err(e);
        },
    };
    let ghost code = out.instrs@;
    proof {
        lemma_program_code_regs(stmts_view(ast@));
    }
    let mut instrs: Vec<AsmRow> = Vec::new();
    let mut i: usize = 0;
    while i < out.instrs.len()
        invariant
            i <= out.instrs@.len(),
            code == out.instrs@,
            out.instrs@.len() * 4 <= u32::MAX,
            regs_ok(out.instrs@),
            instrs@.len() == i,
            forall|k: int| 0 <= k < i ==> listing_row(#[trigger] instrs@[k], code[k], k),
        decreases out.instrs@.len() - i,
    {
        let e = out.instrs[i];
        let addr = (i * 4) as u32;
        instrs.push(
            AsmRow { addr, word: encode(e.instr), assembly: e.instr.text(addr), node: e.node, span: e.span },
        );
        i = i + 1;
    }
    Ok(Compilation { tokens, ast, instrs, vars: out.vars, data_base: out.data_base })
}

// ---- the VM ----------------------------------------------------------------

/// Program bytes that fit the simulated memory.
struct Image {
    bytes: Vec<u8>,
}

impl Image {
    #[verifier::type_invariant]
    spec fn fits_memory(&self) -> bool {
        self.bytes@.len() <= MEM_SIZE
    }
}

/// A run-able VM: the CPU plus the program needed to (re)load it.
pub struct Vm {
    cpu: Cpu,
    program: Image,
    /// instruction index to source span (provenance for the executing PC)
    spans: Vec<Option<Span>>,
}

/// The mathematical state of a VM: the machine, the program bytes it was
/// loaded with, and the source span of each instruction.
pub struct VmView {
    pub machine: Machine,
    pub program: Seq<u8>,
    pub spans: Seq<Option<Span>>,
}

impl View for Vm {
    type V = VmView;

    closed spec fn view(&self) -> VmView {
        VmView { machine: self.cpu@, program: self.program.bytes@, spans: self.spans@ }
    }
}

/// Snapshot of the full CPU state, for the UI's initial paint and reset.
#[derive(Debug)]
pub struct VmState {
    pub regs: [i32; 32],
    pub pc: u32,
    pub halted: bool,
    /// The data section's current contents, one word per variable slot.
    pub var_values: Vec<i32>,
}

/// A `StepDelta` enriched with the source span of the executed instruction.
#[derive(Debug)]
pub struct TracedDelta {
    pub delta: StepDelta,
    pub span: Option<Span>,
}

/// The source span of instruction `i`, if it has one.
pub open spec fn span_at(spans: Seq<Option<Span>>, i: u32) -> Option<Span> {
    if i < spans.len() {
        spans[i as int]
    } else {
        None
    }
}

/// Up to `n` cycles from `m`, stopping once the machine halts: the machine
/// after them and the delta of each.
pub open spec fn run_outcome(m: Machine, n: nat) -> (Machine, Seq<Delta>)
    decreases n,
{
    if n == 0 || m.halted {
        (m, Seq::empty())
    } else {
        let (m1, d) = step_outcome(m);
        let (m2, ds) = run_outcome(m1, (n - 1) as nat);
        (m2, seq![d] + ds)
    }
}

/// The word at `addr`, or 0 when it is not in memory.
pub open spec fn word_or_zero(mem: Seq<u8>, addr: u32) -> i32 {
    match read_word_at(mem, addr) {
        Some(v) => v,
        None => 0,
    }
}

impl Vm {
    /// A VM with the compiled program loaded at address 0.
    pub fn new(compilation: &Compilation) -> (vm: Vm)
        requires
            compilation.instrs@.len() * 4 <= MEM_SIZE,
        ensures
            vm@.program == rows_bytes(compilation.instrs@),
            vm@.machine == boot_state(vm@.program),
            vm@.spans == compilation.instrs@.map_values(|r: AsmRow| r.span),
    {
        let program = compilation.bytes();
        proof {
            lemma_rows_bytes_len(compilation.instrs@);
        }
        let cpu = Cpu::new(program.as_slice());
        let mut spans: Vec<Option<Span>> = Vec::new();
        let mut i: usize = 0;
        while i < compilation.instrs.len()
            invariant
                i <= compilation.instrs@.len(),
                spans@ == compilation.instrs@.take(i as int).map_values(|r: AsmRow| r.span),
            decreases compilation.instrs@.len() - i,
        {
            spans.push(compilation.instrs[i].span);
            proof {
                assert(spans@ =~= compilation.instrs@.take(i + 1).map_values(|r: AsmRow| r.span));
            }
            i = i + 1;
        }
        assert(compilation.instrs@.take(i as int) =~= compilation.instrs@);
        Vm { cpu, program: Image { bytes: program }, spans }
    }

    /// One fetch-decode-execute cycle.
    pub fn step(&mut self) -> (t: TracedDelta)
        ensures
            (final(self)@.machine, t.delta@) == step_outcome(old(self)@.machine),
            t.span == span_at(old(self)@.spans, t.delta.instr_index),
            final(self)@.program == old(self)@.program,
            final(self)@.spans == old(self)@.spans,
    {
        let delta = self.cpu.step();
        let idx = delta.instr_index as usize;
        let span = if idx < self.spans.len() {
            self.spans[idx]
        } else {
            None
        };
        TracedDelta { delta, span }
    }

    /// Run until halt or `max_steps`, collecting every delta.
    pub fn run(&mut self, max_steps: u32) -> (deltas: Vec<TracedDelta>)
        ensures
            final(self)@.machine == run_outcome(old(self)@.machine, max_steps as nat).0,
            deltas@.len() == run_outcome(old(self)@.machine, max_steps as nat).1.len(),
            forall|i: int|
                0 <= i < deltas@.len() ==> #[trigger] deltas@[i].delta@ == run_outcome(
                    old(self)@.machine,
                    max_steps as nat,
                ).1[i] && deltas@[i].span == span_at(old(self)@.spans, deltas@[i].delta.instr_index),
            final(self)@.program == old(self)@.program,
            final(self)@.spans == old(self)@.spans,
    {
        let ghost start = self@.machine;
        let mut deltas: Vec<TracedDelta> = Vec::new();
        let mut k: u32 = 0;
        while k < max_steps
            invariant_except_break
                k <= max_steps,
                ({
                    let (m, ds) = run_outcome(self@.machine, (max_steps - k) as nat);
                    &&& run_outcome(start, max_steps as nat).0 == m
                    &&& run_outcome(start, max_steps as nat).1 == deltas@.map_values(
                        |t: TracedDelta| t.delta@,
                    ) + ds
                }),
            invariant
                self@.program == old(self)@.program,
                self@.spans == old(self)@.spans,
                forall|i: int|
                    0 <= i < deltas@.len() ==> #[trigger] deltas@[i].span == span_at(
                        old(self)@.spans,
                        deltas@[i].delta.instr_index,
                    ),
            ensures
                run_outcome(start, max_steps as nat).0 == self@.machine,
                run_outcome(start, max_steps as nat).1 == deltas@.map_values(|t: TracedDelta| t.delta@),
            decreases max_steps - k,
        {
            if self.cpu.halted {
                proof {
                    assert(deltas@.map_values(|t: TracedDelta| t.delta@) + Seq::<Delta>::empty()
                        =~= deltas@.map_values(|t: TracedDelta| t.delta@));
                }
                break;
            }
            let ghost before = deltas@.map_values(|t: TracedDelta| t.delta@);
            let t = self.step();
            deltas.push(t);
            proof {
                let (m1, d) = step_outcome(old(self)@.machine);
                assert(deltas@.map_values(|t: TracedDelta| t.delta@) =~= before.push(t.delta@));
                let ds = run_outcome(self@.machine, (max_steps - k - 1) as nat).1;
                assert(before + (seq![t.delta@] + ds) =~= before.push(t.delta@) + ds);
            }
            k = k + 1;
        }
        proof {
            if k == max_steps {
                assert(deltas@.map_values(|t: TracedDelta| t.delta@) + Seq::<Delta>::empty()
                    =~= deltas@.map_values(|t: TracedDelta| t.delta@));
            }
        }
        deltas
    }

    /// Reload the program: a fresh machine, as `new` left it.
    pub fn reset(&mut self)
        ensures
            final(self)@.machine == boot_state(old(self)@.program),
            final(self)@.program == old(self)@.program,
            final(self)@.spans == old(self)@.spans,
    {
        proof {
            use_type_invariant(&self.program);
        }
        self.cpu = Cpu::new(self.program.bytes.as_slice());
    }

    pub fn halted(&self) -> (h: bool)
        ensures
            h == self@.machine.halted,
    {
        self.cpu.halted
    }

    /// The registers, the pc, whether the machine halted, and the words of
    /// the first `num_vars` variable slots right after the program.
    pub fn state(&self, num_vars: usize) -> (st: VmState)
        requires
            num_vars == 0 || self@.program.len() + 4 * (num_vars - 1) <= u32::MAX,
        ensures
            st.regs@ == self@.machine.regs,
            st.pc == self@.machine.pc,
            st.halted == self@.machine.halted,
            st.var_values@ == Seq::new(
                num_vars as nat,
                |i: int| word_or_zero(self@.machine.mem, (self@.program.len() + 4 * i) as u32),
            ),
    {
        proof {
            use_type_invariant(&self.program);
        }
        let data_base = self.program.bytes.len() as u32;
        let mut var_values: Vec<i32> = Vec::new();
        let mut i: usize = 0;
        while i < num_vars
            invariant
                i <= num_vars,
                num_vars == 0 || self@.program.len() + 4 * (num_vars - 1) <= u32::MAX,
                data_base == self@.program.len(),
                var_values@ == Seq::new(
                    i as nat,
                    |j: int| word_or_zero(self@.machine.mem, (self@.program.len() + 4 * j) as u32),
                ),
            decreases num_vars - i,
        {
            let addr = data_base + (i * 4) as u32;
            let v = match self.cpu.read_word(addr) {
                Some(v) => v,
                None => 0,
            };
            var_values.push(v);
            proof {
                assert(var_values@ =~= Seq::new(
                    (i + 1) as nat,
                    |j: int| word_or_zero(self@.machine.mem, (self@.program.len() + 4 * j) as u32),
                ));
            }
            i = i + 1;
        }
        VmState { regs: self.cpu.regs, pc: self.cpu.pc, halted: self.cpu.halted, var_values }
    }
}

/// A freshly loaded or reset machine reads 0 from every variable slot past
/// the program.
pub proof fn lemma_boot_vars_zero(program: Seq<u8>, i: nat)
    requires
        program.len() <= MEM_SIZE,
        program.len() + 4 * i <= u32::MAX,
    ensures
        word_or_zero(boot_state(program).mem, (program.len() + 4 * i) as u32) == 0,
{
    let a: int = (program.len() + 4 * i) as int;
    let mem = boot_state(program).mem;
    if a + 4 <= mem.len() {
        assert(mem[a] == 0u8 && mem[a + 1] == 0u8 && mem[a + 2] == 0u8 && mem[a + 3] == 0u8);
        let (b0, b1, b2, b3) = (mem[a], mem[a + 1], mem[a + 2], mem[a + 3]);
        assert(((b0 as u32) | ((b1 as u32) << 8u32) | ((b2 as u32) << 16u32) | ((b3 as u32) << 24u32)) as i32
            == 0) by (bit_vector)
            requires
                b0 == 0u8 && b1 == 0u8 && b2 == 0u8 && b3 == 0u8,
        ;
    }
}

/// The machine code is real: each word of a compiled listing decodes back to
/// the instruction it lists, whenever that instruction's fields fit its
/// encoding.
pub proof fn lemma_listing_decodes(
    c: Compilation,
    toks: Seq<TokenView>,
    prog: Seq<StmtV>,
    code: Seq<Emitted>,
    vars: Seq<Seq<char>>,
)
    requires
        compilation_is(c, toks, prog, code, vars),
        forall|i: int| 0 <= i < code.len() ==> fits_fields(#[trigger] code[i].instr),
    ensures
        forall|i: int|
            0 <= i < c.instrs@.len() ==> decoding(#[trigger] c.instrs@[i].word) == Some(code[i].instr),
{
    assert forall|i: int| 0 <= i < c.instrs@.len() implies decoding(#[trigger] c.instrs@[i].word) == Some(
        code[i].instr,
    ) by {
        assert(listing_row(c.instrs@[i], code[i], i));
        assert(fits_fields(code[i].instr));
        lemma_decode_encode(code[i].instr);
    }
}

/// Provenance end to end: every token, every AST node and every instruction
/// that carries a span of a compiled program points at a non-empty range of
/// the source text.
pub proof fn lemma_compiled_spans(src: Seq<u8>)
    requires
        src.len() <= MAX_SOURCE_LEN,
    ensures
        compiled(src) matches Ok((toks, prog, code, vars)) ==> {
            &&& tokens_in(toks, src.len() as int)
            &&& stmts_spans_in(prog, src.len() as int)
            &&& spans_in(code, src.len() as int)
        },
{
    lemma_tokens_placed(src, 0);
    lemma_token_count(src, 0);
    if let Ok(toks) = lexed(src) {
        assert forall|k: int| 0 <= k < toks.len() implies span_in(#[trigger] toks[k].span, src.len() as int) by {
        }
        lemma_parsed_spans(toks, src.len() as int);
        if let Ok(prog) = parsed(toks) {
            lemma_code_spans(prog, src.len() as int);
        }
    }
}


/// Two compilations hold the same tokens, AST, listing and variables.
pub open spec fn same_compilation(c1: Compilation, c2: Compilation) -> bool {
    &&& token_views(c1.tokens@) == token_views(c2.tokens@)
    &&& stmts_view(c1.ast@) == stmts_view(c2.ast@)
    &&& c1.instrs@.len() == c2.instrs@.len()
    &&& forall|i: int|
        0 <= i < c1.instrs@.len() ==> {
            let (a, b) = (#[trigger] c1.instrs@[i], c2.instrs@[i]);
            &&& a.addr == b.addr
            &&& a.word == b.word
            &&& a.assembly@ == b.assembly@
            &&& a.node == b.node
            &&& a.span == b.span
        }
    &&& c1.data_base == c2.data_base
    &&& c1.vars@.len() == c2.vars@.len()
    &&& forall|i: int|
        0 <= i < c1.vars@.len() ==> (#[trigger] c1.vars@[i]).name@ == c2.vars@[i].name@ && c1.vars@[i].addr
            == c2.vars@[i].addr
}

/// Compiling keeps no hidden state: two results of compiling the same
/// source are the same compilation, or the same error.
pub proof fn lemma_compile_deterministic(
    src: Seq<u8>,
    r1: Result<Compilation, CompileError>,
    r2: Result<Compilation, CompileError>,
)
    requires
        compile_gives(src, r1),
        compile_gives(src, r2),
    ensures
        match (r1, r2) {
            (Ok(c1), Ok(c2)) => same_compilation(c1, c2),
            (Err(e1), Err(e2)) => e1@ == e2@,
            _ => false,
        },
{
    if let Ok((toks, prog, code, vars)) = compiled(src) {
        let c1 = r1->Ok_0;
        let c2 = r2->Ok_0;
        assert forall|i: int| 0 <= i < c1.instrs@.len() implies {
            let (a, b) = (#[trigger] c1.instrs@[i], c2.instrs@[i]);
            &&& a.addr == b.addr
            &&& a.word == b.word
            &&& a.assembly@ == b.assembly@
            &&& a.node == b.node
            &&& a.span == b.span
        } by {
            assert(listing_row(c1.instrs@[i], code[i], i));
            assert(listing_row(c2.instrs@[i], code[i], i));
        }
        assert forall|i: int| 0 <= i < c1.vars@.len() implies (#[trigger] c1.vars@[i]).name@ == c2.vars@[i].name@
            && c1.vars@[i].addr == c2.vars@[i].addr by {
            assert(c1.vars@[i].name@ == vars[i]);
            assert(c2.vars@[i].name@ == vars[i]);
        }
    }
}

} // verus!
