//! Arithmetic and bitwise instructions on machine words.

use vstd::prelude::*;

use crate::context::{
    assigned, fails, loc_value, read_spec, stored, target_spec, Context, Loc,
};
use crate::error::{RtError, RtResult};
use crate::inst::Op;

verus! {

/// Addition modulo the word size.
pub open spec fn wrap_add(a: usize, b: usize) -> usize {
    if a + b <= usize::MAX {
        (a + b) as usize
    } else {
        (a + b - usize::MAX - 1) as usize
    }
}

/// Subtraction modulo the word size.
pub open spec fn wrap_sub(a: usize, b: usize) -> usize {
    if a >= b {
        (a - b) as usize
    } else {
        (usize::MAX + 1 - (b - a)) as usize
    }
}

/// Width of a machine word in bits.
pub open spec fn word_bits() -> nat {
    if usize::MAX == u64::MAX {
        64
    } else {
        32
    }
}

/// The binary operations of the arithmetic and bitwise instructions.
#[derive(Debug, Clone, Copy, PartialEq, Eq)]
pub enum BinKind {
    Add,
    Sub,
    And,
    Or,
    Xor,
    Lsl,
    Lsr,
}

/// What a binary operation computes. Shifting by a word's width or more
/// leaves no bits.
pub open spec fn bin_spec(k: BinKind, a: usize, b: usize) -> usize {
    match k {
        BinKind::Add => wrap_add(a, b),
        BinKind::Sub => wrap_sub(a, b),
        BinKind::And => a & b,
        BinKind::Or => a | b,
        BinKind::Xor => a ^ b,
        BinKind::Lsl => if b < word_bits() {
            a << b
        } else {
            0
        },
        BinKind::Lsr => if b < word_bits() {
            a >> b
        } else {
            0
        },
    }
}

/// Adds `val` to `*dest`, wrapping around on overflow.
pub fn checked_add(dest: &mut usize, val: usize)
    ensures
        *final(dest) == wrap_add(*old(dest), val),
{
    if *dest <= usize::MAX - val {
        *dest = *dest + val;
    } else {
        *dest = val - (usize::MAX - *dest) - 1;
    }
}

/// Subtracts `val` from `*dest`, wrapping around on underflow.
pub fn checked_sub(dest: &mut usize, val: usize)
    ensures
        *final(dest) == wrap_sub(*old(dest), val),
{
    if *dest >= val {
        *dest = *dest - val;
    } else {
        *dest = usize::MAX - (val - *dest) + 1;
    }
}

/// Evaluates a binary operation.
pub fn eval(k: BinKind, a: usize, b: usize) -> (r: usize)
    ensures
        r == bin_spec(k, a, b),
{
    match k {
        BinKind::Add => {
            let mut d = a;
            checked_add(&mut d, b);
            d
        },
        BinKind::Sub => {
            let mut d = a;
            checked_sub(&mut d, b);
            d
        },
        BinKind::And => a & b,
        BinKind::Or => a | b,
        BinKind::Xor => a ^ b,
        BinKind::Lsl => {
            if b < usize::BITS as usize {
                a << b
            } else {
                0
            }
        },
        BinKind::Lsr => {
            if b < usize::BITS as usize {
                a >> b
            } else {
                0
            }
        },
    }
}

/// The three forms shared by the binary instructions: `OP v` combines the
/// accumulator with `v`; `OP d,v` combines `d` with `v` into `d`; `OP d,a,b`
/// stores `a` combined with `b` into `d`.
pub open spec fn binop_post(old: Context, new: Context, op: Op, r: RtResult<()>, k: BinKind) -> bool {
    match op {
        Op::MultiOp(ops) => if ops.len() == 2 && ops[0].spec_is_read_write()
            && ops[1].spec_is_usizeable() {
            match read_spec(old, ops[1]) {
                Ok(v) => match target_spec(old, ops[0]) {
                    Ok(l) => r is Ok && stored(old, new, l, bin_spec(k, loc_value(old, l), v)),
                    Err(e) => fails(old, new, r, e),
                },
                Err(e) => fails(old, new, r, e),
            }
        } else if ops.len() == 3 && ops[0].spec_is_read_write() && ops[1].spec_is_usizeable()
            && ops[2].spec_is_usizeable() {
            match read_spec(old, ops[1]) {
                Ok(a) => match read_spec(old, ops[2]) {
                    Ok(b) => assigned(old, new, r, ops[0], bin_spec(k, a, b)),
                    Err(e) => fails(old, new, r, e),
                },
                Err(e) => fails(old, new, r, e),
            }
        } else {
            fails(old, new, r, RtError::InvalidMultiOp)
        },
        Op::Null => fails(old, new, r, RtError::NoOperand),
        _ => if op.spec_is_usizeable() {
            match read_spec(old, op) {
                Ok(v) => r is Ok && stored(old, new, Loc::Acc, bin_spec(k, old.acc, v)),
                Err(e) => fails(old, new, r, e),
            }
        } else {
            fails(old, new, r, RtError::InvalidOperand)
        },
    }
}

/// Runs a binary instruction in any of its three forms.
pub fn binop(ctx: &mut Context, op: &Op, k: BinKind) -> (r: RtResult<()>)
    ensures
        binop_post(*old(ctx), *final(ctx), *op, r, k),
{
    match op {
        Op::MultiOp(ops) => {
            if ops.len() == 2 && ops[0].is_read_write() && ops[1].is_usizeable() {
                let v = match ctx.read(&ops[1]) {
                    Ok(v) => v,
                    Err(e) => return Err(e),
                };
                match ctx.locate(&ops[0]) {
                    Ok(l) => {
                        let cur = ctx.load(l);
                        ctx.store(l, eval(k, cur, v));
                        Ok(())
                    },
                    Err(e) => Err(e),
                }
            } else if ops.len() == 3 && ops[0].is_read_write() && ops[1].is_usizeable()
                && ops[2].is_usizeable() {
                let a = match ctx.read(&ops[1]) {
                    Ok(v) => v,
                    Err(e) => return Err(e),
                };
                let b = match ctx.read(&ops[2]) {
                    Ok(v) => v,
                    Err(e) => return Err(e),
                };
                ctx.assign(&ops[0], eval(k, a, b))
            } else {
                Err(RtError::InvalidMultiOp)
            }
        },
        Op::Null => Err(RtError::NoOperand),
        _ => {
            if op.is_usizeable() {
                match ctx.read(op) {
                    Ok(v) => {
                        let a = ctx.acc;
                        ctx.store(Loc::Acc, eval(k, a, v));
                        Ok(())
                    },
                    Err(e) => Err(e),
                }
            } else {
                Err(RtError::InvalidOperand)
            }
        },
    }
}

/// `ADD`: wrapping addition.
pub fn add(ctx: &mut Context, op: &Op) -> (r: RtResult<()>)
    ensures
        binop_post(*old(ctx), *final(ctx), *op, r, BinKind::Add),
{
    binop(ctx, op, BinKind::Add)
}

/// `SUB`: wrapping subtraction.
pub fn sub(ctx: &mut Context, op: &Op) -> (r: RtResult<()>)
    ensures
        binop_post(*old(ctx), *final(ctx), *op, r, BinKind::Sub),
{
    binop(ctx, op, BinKind::Sub)
}

/// One step of `INC` or `DEC`: the operand must be a writable location.
pub open spec fn step_post(old: Context, new: Context, op: Op, r: RtResult<()>, k: BinKind) -> bool {
    if op.spec_is_read_write() {
        match target_spec(old, op) {
            Ok(l) => r is Ok && stored(old, new, l, bin_spec(k, loc_value(old, l), 1)),
            Err(e) => fails(old, new, r, e),
        }
    } else if op is Null {
        fails(old, new, r, RtError::NoOperand)
    } else {
        fails(old, new, r, RtError::InvalidOperand)
    }
}

fn step_by_one(ctx: &mut Context, op: &Op, k: BinKind) -> (r: RtResult<()>)
    ensures
        step_post(*old(ctx), *final(ctx), *op, r, k),
{
    if op.is_read_write() {
        match ctx.locate(op) {
            Ok(l) => {
                let cur = ctx.load(l);
                ctx.store(l, eval(k, cur, 1));
                Ok(())
            },
            Err(e) => Err(e),
        }
    } else if op.is_none() {
        Err(RtError::NoOperand)
    } else {
        Err(RtError::InvalidOperand)
    }
}

/// `INC d`: adds one to a register or memory cell.
pub fn inc(ctx: &mut Context, op: &Op) -> (r: RtResult<()>)
    ensures
        step_post(*old(ctx), *final(ctx), *op, r, BinKind::Add),
{
    step_by_one(ctx, op, BinKind::Add)
}

/// `DEC d`: subtracts one from a register or memory cell.
pub fn dec(ctx: &mut Context, op: &Op) -> (r: RtResult<()>)
    ensures
        step_post(*old(ctx), *final(ctx), *op, r, BinKind::Sub),
{
    step_by_one(ctx, op, BinKind::Sub)
}

/// `AND`: bitwise conjunction.
pub fn and(ctx: &mut Context, op: &Op) -> (r: RtResult<()>)
    ensures
        binop_post(*old(ctx), *final(ctx), *op, r, BinKind::And),
{
    binop(ctx, op, BinKind::And)
}

/// `OR`: bitwise disjunction.
pub fn or(ctx: &mut Context, op: &Op) -> (r: RtResult<()>)
    ensures
        binop_post(*old(ctx), *final(ctx), *op, r, BinKind::Or),
{
    binop(ctx, op, BinKind::Or)
}

/// `XOR`: bitwise exclusive or.
pub fn xor(ctx: &mut Context, op: &Op) -> (r: RtResult<()>)
    ensures
        binop_post(*old(ctx), *final(ctx), *op, r, BinKind::Xor),
{
    binop(ctx, op, BinKind::Xor)
}

/// `LSL`: logical shift left.
pub fn lsl(ctx: &mut Context, op: &Op) -> (r: RtResult<()>)
    ensures
        binop_post(*old(ctx), *final(ctx), *op, r, BinKind::Lsl),
{
    binop(ctx, op, BinKind::Lsl)
}

/// `LSR`: logical shift right.
pub fn lsr(ctx: &mut Context, op: &Op) -> (r: RtResult<()>)
    ensures
        binop_post(*old(ctx), *final(ctx), *op, r, BinKind::Lsr),
{
    binop(ctx, op, BinKind::Lsr)
}

} // verus!
