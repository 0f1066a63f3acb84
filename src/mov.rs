//! Instructions that move data between registers and memory.

use vstd::prelude::*;

use crate::context::{
    assigned, assigned_from, fails, indexed_read, indirect_read, mem_read, read_spec, Context,
};
use crate::error::{RtError, RtResult};
use crate::inst::Op;

verus! {

/// The shared shape of the load instructions: `OP a` loads into the
/// accumulator, `OP r,a` into register `r`, where the value comes from
/// `src(a)`.
pub open spec fn load_post(
    old: Context,
    new: Context,
    op: Op,
    r: RtResult<()>,
    src: spec_fn(usize) -> Result<usize, RtError>,
) -> bool {
    match op {
        Op::Addr(a) => assigned_from(old, new, r, Op::Acc, src(a)),
        Op::MultiOp(ops) => if ops.len() == 2 && ops[0].spec_is_register() && ops[1] is Addr {
            assigned_from(old, new, r, ops[0], src(ops[1]->Addr_0))
        } else {
            fails(old, new, r, RtError::InvalidMultiOp)
        },
        Op::Null => fails(old, new, r, RtError::NoOperand),
        _ => fails(old, new, r, RtError::InvalidOperand),
    }
}

/// `LDM n` loads an immediate into the accumulator; `LDM r,n` into `r`.
pub open spec fn ldm_post(old: Context, new: Context, op: Op, r: RtResult<()>) -> bool {
    match op {
        Op::MultiOp(ops) => if ops.len() == 2 && ops[0].spec_is_register() && ops[1] is Literal {
            assigned(old, new, r, ops[0], ops[1]->Literal_0)
        } else {
            fails(old, new, r, RtError::InvalidMultiOp)
        },
        Op::Literal(v) => assigned(old, new, r, Op::Acc, v),
        Op::Null => fails(old, new, r, RtError::NoOperand),
        _ => fails(old, new, r, RtError::InvalidOperand),
    }
}

/// `LDM`: load immediate.
pub fn ldm(ctx: &mut Context, op: &Op) -> (r: RtResult<()>)
    ensures
        ldm_post(*old(ctx), *final(ctx), *op, r),
{
    match op {
        Op::MultiOp(ops) => {
            if ops.len() == 2 && ops[0].is_register() {
                match &ops[1] {
                    Op::Literal(v) => ctx.assign(&ops[0], *v),
                    _ => Err(RtError::InvalidMultiOp),
                }
            } else {
                Err(RtError::InvalidMultiOp)
            }
        },
        Op::Literal(v) => ctx.assign(&Op::Acc, *v),
        Op::Null => Err(RtError::NoOperand),
        _ => Err(RtError::InvalidOperand),
    }
}

/// How a load instruction finds its value.
#[derive(Debug, Clone, Copy, PartialEq, Eq)]
pub enum LoadMode {
    Direct,
    Indirect,
    Indexed,
}

/// Where each load instruction's value comes from, by mode.
pub open spec fn load_src(ctx: Context, mode: LoadMode) -> spec_fn(usize) -> Result<usize, RtError> {
    match mode {
        LoadMode::Direct => |a: usize| mem_read(ctx, a),
        LoadMode::Indirect => |a: usize| indirect_read(ctx, a),
        LoadMode::Indexed => |a: usize| indexed_read(ctx, a),
    }
}

fn fetch(ctx: &Context, a: usize, mode: LoadMode) -> (r: RtResult<usize>)
    ensures
        r == (load_src(*ctx, mode))(a),
{
    match mode {
        LoadMode::Direct => match ctx.mem.get(&a) {
            Ok(v) => Ok(*v),
            Err(e) => Err(e),
        },
        LoadMode::Indirect => ctx.read_indirect(a),
        LoadMode::Indexed => ctx.read_indexed(a),
    }
}

fn load(ctx: &mut Context, op: &Op, mode: LoadMode) -> (r: RtResult<()>)
    ensures
        load_post(*old(ctx), *final(ctx), *op, r, load_src(*old(ctx), mode)),
{
    match op {
        Op::Addr(a) => match fetch(ctx, *a, mode) {
            Ok(v) => ctx.assign(&Op::Acc, v),
            Err(e) => Err(e),
        },
        Op::MultiOp(ops) => {
            if ops.len() == 2 && ops[0].is_register() {
                match &ops[1] {
                    Op::Addr(a) => match fetch(ctx, *a, mode) {
                        Ok(v) => ctx.assign(&ops[0], v),
                        Err(e) => Err(e),
                    },
                    _ => Err(RtError::InvalidMultiOp),
                }
            } else {
                Err(RtError::InvalidMultiOp)
            }
        },
        Op::Null => Err(RtError::NoOperand),
        _ => Err(RtError::InvalidOperand),
    }
}

/// `LDD`: load from memory.
pub fn ldd(ctx: &mut Context, op: &Op) -> (r: RtResult<()>)
    ensures
        load_post(*old(ctx), *final(ctx), *op, r, |a: usize| mem_read(*old(ctx), a)),
{
    load(ctx, op, LoadMode::Direct)
}

/// `LDI`: load from memory through the address stored at the operand.
pub fn ldi(ctx: &mut Context, op: &Op) -> (r: RtResult<()>)
    ensures
        load_post(*old(ctx), *final(ctx), *op, r, |a: usize| indirect_read(*old(ctx), a)),
{
    load(ctx, op, LoadMode::Indirect)
}

/// `LDX`: load from memory at the operand plus the index register.
pub fn ldx(ctx: &mut Context, op: &Op) -> (r: RtResult<()>)
    ensures
        load_post(*old(ctx), *final(ctx), *op, r, |a: usize| indexed_read(*old(ctx), a)),
{
    load(ctx, op, LoadMode::Indexed)
}

/// `LDR n`: load an immediate into the index register.
pub fn ldr(ctx: &mut Context, op: &Op) -> (r: RtResult<()>)
    ensures
        match *op {
            Op::Literal(v) => assigned(*old(ctx), *final(ctx), r, Op::Ix, v),
            Op::Null => fails(*old(ctx), *final(ctx), r, RtError::NoOperand),
            _ => fails(*old(ctx), *final(ctx), r, RtError::InvalidOperand),
        },
{
    match op {
        Op::Literal(v) => ctx.assign(&Op::Ix, *v),
        Op::Null => Err(RtError::NoOperand),
        _ => Err(RtError::InvalidOperand),
    }
}

/// `MOV r` copies the accumulator into `r`; `MOV d,s` copies `s` into `d`.
pub open spec fn mov_post(old: Context, new: Context, op: Op, r: RtResult<()>) -> bool {
    match op {
        Op::MultiOp(ops) => if ops.len() == 2 && ops[0].spec_is_read_write()
            && ops[1].spec_is_usizeable() {
            assigned_from(old, new, r, ops[0], read_spec(old, ops[1]))
        } else {
            fails(old, new, r, RtError::InvalidMultiOp)
        },
        Op::Null => fails(old, new, r, RtError::NoOperand),
        _ => if op.spec_is_register() {
            assigned(old, new, r, op, old.acc)
        } else {
            fails(old, new, r, RtError::InvalidOperand)
        },
    }
}

/// `MOV`: move between registers and memory.
pub fn mov(ctx: &mut Context, op: &Op) -> (r: RtResult<()>)
    ensures
        mov_post(*old(ctx), *final(ctx), *op, r),
{
    match op {
        Op::MultiOp(ops) => {
            if ops.len() == 2 && ops[0].is_read_write() && ops[1].is_usizeable() {
                match ctx.read(&ops[1]) {
                    Ok(v) => ctx.assign(&ops[0], v),
                    Err(e) => Err(e),
                }
            } else {
                Err(RtError::InvalidMultiOp)
            }
        },
        Op::Null => Err(RtError::NoOperand),
        _ => {
            if op.is_register() {
                let v = ctx.acc;
                ctx.assign(op, v)
            } else {
                Err(RtError::InvalidOperand)
            }
        },
    }
}

/// `STO a`: store the accumulator in memory.
pub fn sto(ctx: &mut Context, op: &Op) -> (r: RtResult<()>)
    ensures
        match *op {
            Op::Addr(_) => assigned(*old(ctx), *final(ctx), r, *op, old(ctx).acc),
            Op::Null => fails(*old(ctx), *final(ctx), r, RtError::NoOperand),
            _ => fails(*old(ctx), *final(ctx), r, RtError::InvalidOperand),
        },
{
    match op {
        Op::Addr(_) => {
            let v = ctx.acc;
            ctx.assign(op, v)
        },
        Op::Null => Err(RtError::NoOperand),
        _ => Err(RtError::InvalidOperand),
    }
}

} // verus!
