//! Runtime errors raised while a program executes.

use vstd::prelude::*;

verus! {

/// Every way an instruction can fail at run time.
#[derive(Debug, PartialEq, Eq)]
pub enum RtError {
    Other(String),
    /// The input stream could not supply what an instruction asked for.
    IoError(String),
    InvalidUtf8Byte(usize),
    InvalidOperand,
    NoOpInst,
    NoOperand,
    InvalidAddr(usize),
    InvalidIndirectAddr { src: usize, redirect: usize },
    InvalidIndexedAddr { src: usize, offset: usize },
    InvalidMultiOp,
    /// The program counter names no instruction of the program.
    InvalidProgAddr(usize),
    /// The instruction set has no instruction with this id.
    InvalidInstId(u64),
}

/// The result of a runtime operation.
pub type RtResult<T> = Result<T, RtError>;

} // verus!
