//! Compiler-visualizer engine: source text in, every compilation artifact
//! out (tokens, AST, assembly, machine code), all linked by provenance spans,
//! plus a step-able RISC-V CPU simulator.
use vstd::prelude::*;

pub mod assembler;
pub mod ast;
pub mod codegen;
pub mod cpu;
pub mod fmt;
pub mod ir;
pub mod lexer;
pub mod meaning;
pub mod parser;
pub mod programs;
pub mod span;
pub mod vm;

pub use span::CompileError;
pub use vm::{compile, Compilation, Vm};

verus! {

/// Trusted, not proved: std's `String::push`, which its documentation
/// describes as appending the given `char` to the end of the string.
pub assume_specification[ String::push ](s: &mut String, ch: char)
    ensures
        final(s)@ == old(s)@.push(ch),
;

} // verus!
