//! Comparison and jump instructions.

use vstd::prelude::*;

use crate::context::{fails, indirect_read, jumped, mem_read, read_spec, same_data, Context};
use crate::error::{RtError, RtResult};
use crate::inst::Op;

verus! {

/// The comparison flag was set to `b` and nothing else changed.
pub open spec fn compared(old: Context, new: Context, b: bool) -> bool {
    &&& new.cmp == b
    &&& same_data(old, new)
    &&& new.mar == old.mar
    &&& new.flow_override_reg == old.flow_override_reg
    &&& new.end == old.end
}

/// `JMP a` jumps to `a`; `JMP a,b` jumps to `a` if the comparison flag is
/// set and to `b` otherwise.
pub open spec fn jmp_post(old: Context, new: Context, op: Op, r: RtResult<()>) -> bool {
    match op {
        Op::Addr(x) => r is Ok && jumped(old, new, x),
        Op::MultiOp(ops) => if ops.len() == 2 && ops[0] is Addr && ops[1] is Addr {
            r is Ok && jumped(old, new, if old.cmp { ops[0]->Addr_0 } else { ops[1]->Addr_0 })
        } else {
            fails(old, new, r, RtError::InvalidMultiOp)
        },
        Op::Null => fails(old, new, r, RtError::NoOperand),
        _ => fails(old, new, r, RtError::InvalidOperand),
    }
}

/// `JMP`: unconditional or two-way jump.
pub fn jmp(ctx: &mut Context, op: &Op) -> (r: RtResult<()>)
    ensures
        jmp_post(*old(ctx), *final(ctx), *op, r),
{
    match op {
        Op::Addr(x) => {
            ctx.jump(*x);
            Ok(())
        },
        Op::MultiOp(ops) => {
            if ops.len() == 2 {
                match (&ops[0], &ops[1]) {
                    (Op::Addr(eq), Op::Addr(ne)) => {
                        let target = if ctx.cmp {
                            *eq
                        } else {
                            *ne
                        };
                        ctx.jump(target);
                        Ok(())
                    },
                    _ => Err(RtError::InvalidMultiOp),
                }
            } else {
                Err(RtError::InvalidMultiOp)
            }
        },
        Op::Null => Err(RtError::NoOperand),
        _ => Err(RtError::InvalidOperand),
    }
}

/// Sets the comparison flag from two values, either of which may be an error.
pub open spec fn compared_from(
    old: Context,
    new: Context,
    r: RtResult<()>,
    a: Result<usize, RtError>,
    b: Result<usize, RtError>,
) -> bool {
    match a {
        Ok(x) => match b {
            Ok(y) => r is Ok && compared(old, new, x == y),
            Err(e) => fails(old, new, r, e),
        },
        Err(e) => fails(old, new, r, e),
    }
}

/// `CMP v` compares the accumulator with `v`; `CMP a,b` compares `a` with `b`.
pub open spec fn cmp_post(old: Context, new: Context, op: Op, r: RtResult<()>) -> bool {
    match op {
        Op::MultiOp(ops) => if ops.len() == 2 && ops[0].spec_is_usizeable()
            && ops[1].spec_is_usizeable() {
            compared_from(old, new, r, read_spec(old, ops[0]), read_spec(old, ops[1]))
        } else {
            fails(old, new, r, RtError::InvalidMultiOp)
        },
        Op::Null => fails(old, new, r, RtError::NoOperand),
        _ => if op.spec_is_usizeable() {
            compared_from(old, new, r, Ok(old.acc), read_spec(old, op))
        } else {
            fails(old, new, r, RtError::InvalidOperand)
        },
    }
}

/// `CMP`: compare for equality.
pub fn cmp(ctx: &mut Context, op: &Op) -> (r: RtResult<()>)
    ensures
        cmp_post(*old(ctx), *final(ctx), *op, r),
{
    match op {
        Op::MultiOp(ops) => {
            if ops.len() == 2 && ops[0].is_usizeable() && ops[1].is_usizeable() {
                let a = match ctx.read(&ops[0]) {
                    Ok(v) => v,
                    Err(e) => return Err(e),
                };
                let b = match ctx.read(&ops[1]) {
                    Ok(v) => v,
                    Err(e) => return Err(e),
                };
                ctx.cmp = a == b;
                Ok(())
            } else {
                Err(RtError::InvalidMultiOp)
            }
        },
        Op::Null => Err(RtError::NoOperand),
        _ => {
            if op.is_usizeable() {
                match ctx.read(op) {
                    Ok(v) => {
                        ctx.cmp = ctx.acc == v;
                        Ok(())
                    },
                    Err(e) => Err(e),
                }
            } else {
                Err(RtError::InvalidOperand)
            }
        },
    }
}

/// `CMI a` compares the accumulator with the cell whose address is stored at
/// `a`; `CMI v,a` compares `v` with it instead.
pub open spec fn cmi_post(old: Context, new: Context, op: Op, r: RtResult<()>) -> bool {
    match op {
        Op::Addr(addr) => compared_from(old, new, r, Ok(old.acc), indirect_read(old, addr)),
        Op::MultiOp(ops) => if ops.len() == 2 && ops[0].spec_is_usizeable() && ops[1] is Addr {
            let addr = ops[1]->Addr_0;
            match mem_read(old, addr) {
                Ok(_) => compared_from(old, new, r, read_spec(old, ops[0]), indirect_read(old, addr)),
                Err(e) => fails(old, new, r, e),
            }
        } else {
            fails(old, new, r, RtError::InvalidMultiOp)
        },
        Op::Null => fails(old, new, r, RtError::NoOperand),
        _ => fails(old, new, r, RtError::InvalidOperand),
    }
}

/// `CMI`: compare with indirect addressing.
pub fn cmi(ctx: &mut Context, op: &Op) -> (r: RtResult<()>)
    ensures
        cmi_post(*old(ctx), *final(ctx), *op, r),
{
    match op {
        Op::Addr(addr) => {
            match ctx.read_indirect(*addr) {
                Ok(v) => {
                    ctx.cmp = ctx.acc == v;
                    Ok(())
                },
                Err(e) => Err(e),
            }
        },
        Op::MultiOp(ops) => {
            if ops.len() == 2 && ops[0].is_usizeable() {
                match &ops[1] {
                    Op::Addr(addr) => {
                        if let Err(e) = ctx.mem.get(addr) {
                            return Err(e);
                        }
                        let a = match ctx.read(&ops[0]) {
                            Ok(v) => v,
                            Err(e) => return Err(e),
                        };
                        let b = match ctx.read_indirect(*addr) {
                            Ok(v) => v,
                            Err(e) => return Err(e),
                        };
                        ctx.cmp = a == b;
                        Ok(())
                    },
                    _ => Err(RtError::InvalidMultiOp),
                }
            } else {
                Err(RtError::InvalidMultiOp)
            }
        },
        Op::Null => Err(RtError::NoOperand),
        _ => Err(RtError::InvalidOperand),
    }
}

/// A conditional jump to `a` taken when the comparison flag equals `when`.
pub open spec fn cond_jump_post(old: Context, new: Context, op: Op, r: RtResult<()>, when: bool) -> bool {
    match op {
        Op::Addr(a) => r is Ok && if old.cmp == when {
            jumped(old, new, a)
        } else {
            new == old
        },
        Op::Null => fails(old, new, r, RtError::NoOperand),
        _ => fails(old, new, r, RtError::InvalidOperand),
    }
}

fn cond_jump(ctx: &mut Context, op: &Op, when: bool) -> (r: RtResult<()>)
    ensures
        cond_jump_post(*old(ctx), *final(ctx), *op, r, when),
{
    match op {
        Op::Addr(a) => {
            if ctx.cmp == when {
                ctx.jump(*a);
            }
            Ok(())
        },
        Op::Null => Err(RtError::NoOperand),
        _ => Err(RtError::InvalidOperand),
    }
}

/// `JPE a`: jump if the last comparison was equal.
pub fn jpe(ctx: &mut Context, op: &Op) -> (r: RtResult<()>)
    ensures
        cond_jump_post(*old(ctx), *final(ctx), *op, r, true),
{
    cond_jump(ctx, op, true)
}

/// `JPN a`: jump if the last comparison was not equal.
pub fn jpn(ctx: &mut Context, op: &Op) -> (r: RtResult<()>)
    ensures
        cond_jump_post(*old(ctx), *final(ctx), *op, r, false),
{
    cond_jump(ctx, op, false)
}

} // verus!
