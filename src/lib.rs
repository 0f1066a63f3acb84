//! An assembler and execution engine for a small teaching pseudoassembly
//! language: source text is lexed, parsed into instruction and memory lines,
//! linked into a dense program with resolved addresses, and run by a
//! fetch-decode-execute loop over a machine context.
//!
//! * [`lexer`], [`parser`], [`linker`]: source text to a linked program.
//! * [`inst`], [`inst_set`]: operands, and instruction sets with stable ids.
//! * [`context`], [`memory`], [`error`]: the machine state and its addressing.
//! * [`arith`], [`cmp`], [`mov`], [`io`]: the instructions.
//! * [`exec`]: the executor. [`compile`]: entry points.
//! * [`laws`]: properties relating several calls.

#![allow(non_camel_case_types)]

pub mod text;
pub mod inst;
pub mod error;
pub mod memory;
pub mod context;
pub mod arith;
pub mod cmp;
pub mod mov;
pub mod io;
pub mod inst_set;
pub mod lexer;
pub mod parser;
pub mod linker;
pub mod exec;
pub mod compile;
pub mod laws;
