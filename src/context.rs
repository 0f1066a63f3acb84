//! The machine state that instructions read and modify, and the addressing
//! rules by which an operand denotes a value or a location.

use vstd::prelude::*;

use crate::error::{RtError, RtResult};
use crate::inst::{Op, GPR_COUNT};
use crate::memory::Memory;

verus! {

broadcast use vstd::array::group_array_axioms;

/// Byte streams a program reads from and writes to.
///
/// Input is consumed from `read_pos` onwards; output is appended.
#[derive(Debug, Default)]
pub struct Io {
    pub input: Vec<u8>,
    pub read_pos: usize,
    pub output: Vec<u8>,
}

impl Io {
    /// Input that has not been read yet.
    pub open spec fn pending(&self) -> Seq<u8> {
        if self.read_pos <= self.input.len() {
            self.input@.subrange(self.read_pos as int, self.input.len() as int)
        } else {
            Seq::empty()
        }
    }

    pub fn new(input: Vec<u8>) -> (r: Io)
        ensures
            r.pending() == input@,
            r.output@.len() == 0,
    {
        let r = Io { input, read_pos: 0, output: Vec::new() };
        proof {
            assert(r.pending() =~= r.input@);
        }
        r
    }

    /// Takes the next input byte, if any.
    pub fn read_byte(&mut self) -> (r: Option<u8>)
        ensures
            old(self).pending().len() == 0 ==> r is None && *final(self) == *old(self),
            old(self).pending().len() > 0 ==> r == Some(old(self).pending()[0])
                && final(self).pending() == old(self).pending().drop_first()
                && final(self).output == old(self).output,
    {
        if self.read_pos < self.input.len() {
            let b = self.input[self.read_pos];
            self.read_pos = self.read_pos + 1;
            proof {
                assert(self.pending() =~= old(self).pending().drop_first());
            }
            Some(b)
        } else {
            None
        }
    }

    /// Appends bytes to the output.
    pub fn write_bytes(&mut self, bytes: &[u8])
        ensures
            final(self).output@ == old(self).output@ + bytes@,
            final(self).input == old(self).input,
            final(self).read_pos == old(self).read_pos,
    {
        let mut i: usize = 0;
        while i < bytes.len()
            invariant
                i <= bytes.len(),
                self.output@ == old(self).output@ + bytes@.subrange(0, i as int),
                self.input == old(self).input,
                self.read_pos == old(self).read_pos,
            decreases bytes.len() - i,
        {
            self.output.push(bytes[i]);
            i += 1;
            proof {
                assert(bytes@.subrange(0, i as int) =~= bytes@.subrange(0, i - 1) + seq![bytes@[i - 1]]);
            }
        }
        proof {
            assert(bytes@.subrange(0, i as int) =~= bytes@);
        }
    }
}

/// A place a value can be stored in.
#[derive(Debug, Clone, Copy, PartialEq, Eq)]
pub enum Loc {
    Acc,
    Ix,
    Ar,
    Gpr(usize),
    Mem(usize),
}

/// State of the registers, flags, memory and I/O during execution.
#[derive(Debug, Default)]
pub struct Context {
    pub cmp: bool,
    pub mar: usize,
    pub acc: usize,
    pub ix: usize,
    pub flow_override_reg: bool,
    pub mem: Memory,
    pub ret: usize,
    pub gprs: [usize; GPR_COUNT],
    pub end: bool,
    pub io: Io,
}

/// The value a register operand names.
pub open spec fn reg_value(ctx: Context, op: Op) -> usize {
    match op {
        Op::Acc => ctx.acc,
        Op::Ix => ctx.ix,
        Op::Ar => ctx.ret,
        Op::Gpr(n) => ctx.gprs@[n as int],
        _ => 0,
    }
}

/// The location a register operand names.
pub open spec fn reg_loc(op: Op) -> Loc {
    match op {
        Op::Acc => Loc::Acc,
        Op::Ix => Loc::Ix,
        Op::Ar => Loc::Ar,
        Op::Gpr(n) => Loc::Gpr(n),
        _ => Loc::Acc,
    }
}

/// Reads memory cell `a`.
pub open spec fn mem_read(ctx: Context, a: usize) -> Result<usize, RtError> {
    if ctx.mem@.contains_key(a) {
        Ok(ctx.mem@[a])
    } else {
        Err(RtError::InvalidAddr(a))
    }
}

/// Where the pointer of an indirection is kept: the cell an address names,
/// or, for a pointer held elsewhere, the pointer itself.
pub open spec fn hop_src(inner: Op, a: usize) -> usize {
    match inner {
        Op::Addr(s) => s,
        _ => a,
    }
}

/// Reads the cell an indirection points to; a missing cell is an invalid
/// indirect address.
pub open spec fn hop_read(ctx: Context, inner: Op, a: usize) -> Result<usize, RtError> {
    if ctx.mem@.contains_key(a) {
        Ok(ctx.mem@[a])
    } else {
        Err(RtError::InvalidIndirectAddr { src: hop_src(inner, a), redirect: a })
    }
}

/// The cell an indirection points to, if it exists.
pub open spec fn hop_loc(ctx: Context, inner: Op, a: usize) -> Result<Loc, RtError> {
    if ctx.mem@.contains_key(a) {
        Ok(Loc::Mem(a))
    } else {
        Err(RtError::InvalidIndirectAddr { src: hop_src(inner, a), redirect: a })
    }
}

/// The value an operand denotes, or why it denotes none.
pub open spec fn read_spec(ctx: Context, op: Op) -> Result<usize, RtError>
    decreases op,
{
    match op {
        Op::Literal(v) => Ok(v),
        Op::Addr(a) => mem_read(ctx, a),
        Op::Indirect(inner) => if inner.spec_is_usizeable() {
            match read_spec(ctx, *inner) {
                Ok(a) => hop_read(ctx, *inner, a),
                Err(e) => Err(e),
            }
        } else {
            Err(RtError::InvalidOperand)
        },
        Op::Acc => Ok(ctx.acc),
        Op::Ix => Ok(ctx.ix),
        Op::Ar => Ok(ctx.ret),
        Op::Gpr(n) => if n < GPR_COUNT {
            Ok(ctx.gprs@[n as int])
        } else {
            Err(RtError::InvalidOperand)
        },
        Op::Null => Err(RtError::NoOperand),
        Op::MultiOp(_) => Err(RtError::InvalidMultiOp),
        _ => Err(RtError::InvalidOperand),
    }
}

/// The memory location `a`, if it exists.
pub open spec fn mem_loc(ctx: Context, a: usize) -> Result<Loc, RtError> {
    if ctx.mem@.contains_key(a) {
        Ok(Loc::Mem(a))
    } else {
        Err(RtError::InvalidAddr(a))
    }
}

/// The location an operand writes to, or why it names none.
pub open spec fn target_spec(ctx: Context, op: Op) -> Result<Loc, RtError> {
    match op {
        Op::Addr(a) => mem_loc(ctx, a),
        Op::Indirect(inner) => if inner.spec_is_usizeable() {
            match read_spec(ctx, *inner) {
                Ok(a) => hop_loc(ctx, *inner, a),
                Err(e) => Err(e),
            }
        } else {
            Err(RtError::InvalidOperand)
        },
        Op::Acc => Ok(Loc::Acc),
        Op::Ix => Ok(Loc::Ix),
        Op::Ar => Ok(Loc::Ar),
        Op::Gpr(n) => if n < GPR_COUNT {
            Ok(Loc::Gpr(n))
        } else {
            Err(RtError::InvalidOperand)
        },
        Op::Null => Err(RtError::NoOperand),
        Op::MultiOp(_) => Err(RtError::InvalidMultiOp),
        _ => Err(RtError::InvalidOperand),
    }
}

/// A location that exists in this context.
pub open spec fn loc_valid(ctx: Context, l: Loc) -> bool {
    match l {
        Loc::Gpr(n) => n < GPR_COUNT,
        Loc::Mem(a) => ctx.mem@.contains_key(a),
        _ => true,
    }
}

/// The value held at a location.
pub open spec fn loc_value(ctx: Context, l: Loc) -> usize {
    match l {
        Loc::Acc => ctx.acc,
        Loc::Ix => ctx.ix,
        Loc::Ar => ctx.ret,
        Loc::Gpr(n) => ctx.gprs@[n as int],
        Loc::Mem(a) => ctx.mem@[a],
    }
}

/// Everything but the registers and memory is the same.
pub open spec fn same_flags(old: Context, new: Context) -> bool {
    &&& new.cmp == old.cmp
    &&& new.mar == old.mar
    &&& new.flow_override_reg == old.flow_override_reg
    &&& new.end == old.end
    &&& new.io == old.io
}

/// `new` is `old` with `v` stored at `l`.
pub open spec fn stored(old: Context, new: Context, l: Loc, v: usize) -> bool {
    &&& same_flags(old, new)
    &&& new.acc == (if l is Acc { v } else { old.acc })
    &&& new.ix == (if l is Ix { v } else { old.ix })
    &&& new.ret == (if l is Ar { v } else { old.ret })
    &&& new.gprs@ == (if let Loc::Gpr(n) = l { old.gprs@.update(n as int, v) } else { old.gprs@ })
    &&& new.mem@ == (if let Loc::Mem(a) = l { old.mem@.insert(a, v) } else { old.mem@ })
}

/// Only the registers named by `f` and the flags may differ: memory,
/// general registers and I/O are the same.
pub open spec fn same_data(old: Context, new: Context) -> bool {
    &&& new.acc == old.acc
    &&& new.ix == old.ix
    &&& new.ret == old.ret
    &&& new.gprs@ == old.gprs@
    &&& new.mem@ == old.mem@
    &&& new.io == old.io
}

/// The instruction failed with `e` and changed nothing.
pub open spec fn fails(old: Context, new: Context, r: RtResult<()>, e: RtError) -> bool {
    r == Err::<(), RtError>(e) && new == old
}

/// `v` was stored where `dest` points, or the reason it points nowhere was
/// returned and nothing changed.
pub open spec fn assigned(old: Context, new: Context, r: RtResult<()>, dest: Op, v: usize) -> bool {
    match target_spec(old, dest) {
        Ok(l) => r is Ok && stored(old, new, l, v),
        Err(e) => fails(old, new, r, e),
    }
}

/// Like `assigned`, for a value that may itself be an error.
pub open spec fn assigned_from(
    old: Context,
    new: Context,
    r: RtResult<()>,
    dest: Op,
    src: Result<usize, RtError>,
) -> bool {
    match src {
        Ok(v) => assigned(old, new, r, dest, v),
        Err(e) => fails(old, new, r, e),
    }
}

/// Control moved to `target`: the counter is set, the override flag raised,
/// and no data changed.
pub open spec fn jumped(old: Context, new: Context, target: usize) -> bool {
    &&& new.mar == target
    &&& new.flow_override_reg
    &&& same_data(old, new)
    &&& new.cmp == old.cmp
    &&& new.end == old.end
}

/// Reads the cell whose address is stored at `addr`.
pub open spec fn indirect_read(ctx: Context, addr: usize) -> Result<usize, RtError> {
    match mem_read(ctx, addr) {
        Ok(a2) => if ctx.mem@.contains_key(a2) {
            Ok(ctx.mem@[a2])
        } else {
            Err(RtError::InvalidIndirectAddr { src: addr, redirect: a2 })
        },
        Err(e) => Err(e),
    }
}

/// Reads the cell at `addr` offset by the index register.
pub open spec fn indexed_read(ctx: Context, addr: usize) -> Result<usize, RtError> {
    if addr + ctx.ix <= usize::MAX && ctx.mem@.contains_key((addr + ctx.ix) as usize) {
        Ok(ctx.mem@[(addr + ctx.ix) as usize])
    } else {
        Err(RtError::InvalidIndexedAddr { src: addr, offset: ctx.ix })
    }
}

/// What an operand reads and where it writes depend only on the registers
/// and memory.
pub proof fn lemma_same_data_reads(c1: Context, c2: Context, op: Op)
    requires
        c1.acc == c2.acc,
        c1.ix == c2.ix,
        c1.ret == c2.ret,
        c1.gprs@ == c2.gprs@,
        c1.mem@ == c2.mem@,
    ensures
        read_spec(c1, op) == read_spec(c2, op),
        target_spec(c1, op) == target_spec(c2, op),
    decreases op,
{
    match op {
        Op::Indirect(inner) => lemma_same_data_reads(c1, c2, *inner),
        _ => {},
    }
}

/// The registers and flags a run starts with: all zero or lowered.
pub open spec fn fresh(ctx: Context) -> bool {
    &&& ctx.acc == 0 && ctx.ix == 0 && ctx.ret == 0 && ctx.mar == 0
    &&& !ctx.cmp && !ctx.flow_override_reg && !ctx.end
    &&& forall|i: int| 0 <= i < GPR_COUNT ==> ctx.gprs@[i] == 0
}

impl Context {
    pub fn new(mem: Memory) -> (r: Context)
        ensures
            r.mem@ == mem@,
            r.acc == 0 && r.ix == 0 && r.ret == 0 && r.mar == 0,
            !r.cmp && !r.flow_override_reg && !r.end,
            forall|i: int| 0 <= i < GPR_COUNT ==> r.gprs@[i] == 0,
            r.io.pending().len() == 0 && r.io.output@.len() == 0,
    {
        Context::with_io(mem, Io::new(Vec::new()))
    }

    pub fn with_io(mem: Memory, io: Io) -> (r: Context)
        ensures
            r.mem@ == mem@,
            r.io == io,
            r.acc == 0 && r.ix == 0 && r.ret == 0 && r.mar == 0,
            !r.cmp && !r.flow_override_reg && !r.end,
            forall|i: int| 0 <= i < GPR_COUNT ==> r.gprs@[i] == 0,
    {
        Context {
            cmp: false,
            mar: 0,
            acc: 0,
            ix: 0,
            flow_override_reg: false,
            mem,
            ret: 0,
            gprs: [0; GPR_COUNT],
            end: false,
            io,
        }
    }

    /// Marks that the current instruction has set the program counter itself.
    pub fn override_flow_control(&mut self)
        ensures
            final(self).flow_override_reg,
            same_data(*old(self), *final(self)),
            final(self).mar == old(self).mar,
            final(self).cmp == old(self).cmp,
            final(self).end == old(self).end,
    {
        self.flow_override_reg = true;
    }

    /// The value of a register named directly.
    pub fn get_register(&self, op: &Op) -> (r: usize)
        requires
            op.is_direct_register(),
        ensures
            r == reg_value(*self, *op),
    {
        match op {
            Op::Acc => self.acc,
            Op::Ix => self.ix,
            Op::Ar => self.ret,
            Op::Gpr(x) => self.gprs[*x],
            _ => 0,
        }
    }

    /// A mutable reference to a register named directly.
    pub fn get_mut_register(&mut self, op: &Op) -> (r: &mut usize)
        requires
            op.is_direct_register(),
        ensures
            *r == reg_value(*old(self), *op),
            stored(*old(self), *final(self), reg_loc(*op), *final(r)),
    {
        match op {
            Op::Acc => &mut self.acc,
            Op::Ix => &mut self.ix,
            Op::Ar => &mut self.ret,
            Op::Gpr(x) => &mut self.gprs[*x],
            _ => &mut self.acc,
        }
    }

    fn mem_get(&self, a: usize) -> (r: RtResult<usize>)
        ensures
            r == mem_read(*self, a),
    {
        match self.mem.get(&a) {
            Ok(v) => Ok(*v),
            Err(e) => Err(e),
        }
    }

    /// Reads the value an operand denotes: a literal, a register, a memory
    /// cell, or the cell addressed by an inner operand.
    pub fn read(&self, op: &Op) -> (r: RtResult<usize>)
        ensures
            r == read_spec(*self, *op),
        decreases op,
    {
        match op {
            Op::Literal(v) => Ok(*v),
            Op::Addr(a) => self.mem_get(*a),
            Op::Indirect(inner) => {
                if inner.is_usizeable() {
                    match self.read(inner) {
                        Ok(a) => self.hop_get(inner, a),
                        Err(e) => Err(e),
                    }
                } else {
                    Err(RtError::InvalidOperand)
                }
            },
            Op::Acc => Ok(self.acc),
            Op::Ix => Ok(self.ix),
            Op::Ar => Ok(self.ret),
            Op::Gpr(n) => {
                if *n < GPR_COUNT {
                    Ok(self.gprs[*n])
                } else {
                    Err(RtError::InvalidOperand)
                }
            },
            Op::Null => Err(RtError::NoOperand),
            Op::MultiOp(_) => Err(RtError::InvalidMultiOp),
            _ => Err(RtError::InvalidOperand),
        }
    }

    fn hop_get(&self, inner: &Op, a: usize) -> (r: RtResult<usize>)
        ensures
            r == hop_read(*self, *inner, a),
    {
        match self.mem.get(&a) {
            Ok(v) => Ok(*v),
            Err(_) => {
                let src = match inner {
                    Op::Addr(s) => *s,
                    _ => a,
                };
                Err(RtError::InvalidIndirectAddr { src, redirect: a })
            },
        }
    }

    fn hop_locate(&self, inner: &Op, a: usize) -> (r: RtResult<Loc>)
        ensures
            r == hop_loc(*self, *inner, a),
    {
        match self.mem.get(&a) {
            Ok(_) => Ok(Loc::Mem(a)),
            Err(_) => {
                let src = match inner {
                    Op::Addr(s) => *s,
                    _ => a,
                };
                Err(RtError::InvalidIndirectAddr { src, redirect: a })
            },
        }
    }

    fn mem_locate(&self, a: usize) -> (r: RtResult<Loc>)
        ensures
            r == mem_loc(*self, a),
    {
        match self.mem.get(&a) {
            Ok(_) => Ok(Loc::Mem(a)),
            Err(e) => Err(e),
        }
    }

    /// The location an operand writes to.
    pub fn locate(&self, op: &Op) -> (r: RtResult<Loc>)
        ensures
            r == target_spec(*self, *op),
            r is Ok ==> loc_valid(*self, r->Ok_0),
    {
        match op {
            Op::Addr(a) => self.mem_locate(*a),
            Op::Indirect(inner) => {
                if inner.is_usizeable() {
                    match self.read(inner) {
                        Ok(a) => self.hop_locate(inner, a),
                        Err(e) => Err(e),
                    }
                } else {
                    Err(RtError::InvalidOperand)
                }
            },
            Op::Acc => Ok(Loc::Acc),
            Op::Ix => Ok(Loc::Ix),
            Op::Ar => Ok(Loc::Ar),
            Op::Gpr(n) => {
                if *n < GPR_COUNT {
                    Ok(Loc::Gpr(*n))
                } else {
                    Err(RtError::InvalidOperand)
                }
            },
            Op::Null => Err(RtError::NoOperand),
            Op::MultiOp(_) => Err(RtError::InvalidMultiOp),
            _ => Err(RtError::InvalidOperand),
        }
    }

    /// The value held at an existing location.
    pub fn load(&self, l: Loc) -> (r: usize)
        requires
            loc_valid(*self, l),
        ensures
            r == loc_value(*self, l),
    {
        match l {
            Loc::Acc => self.acc,
            Loc::Ix => self.ix,
            Loc::Ar => self.ret,
            Loc::Gpr(n) => self.gprs[n],
            Loc::Mem(a) => match self.mem.get(&a) {
                Ok(v) => *v,
                Err(_) => 0,
            },
        }
    }

    /// Stores a value at an existing location.
    pub fn store(&mut self, l: Loc, v: usize)
        requires
            loc_valid(*old(self), l),
        ensures
            stored(*old(self), *final(self), l, v),
    {
        match l {
            Loc::Acc => self.acc = v,
            Loc::Ix => self.ix = v,
            Loc::Ar => self.ret = v,
            Loc::Gpr(n) => self.gprs[n] = v,
            Loc::Mem(a) => {
                let _ = self.mem.write(&a, v);
            },
        }
    }

    /// Stores `v` where `op` points.
    pub fn assign(&mut self, op: &Op, v: usize) -> (r: RtResult<()>)
        ensures
            match target_spec(*old(self), *op) {
                Ok(l) => r is Ok && stored(*old(self), *final(self), l, v),
                Err(e) => r == Err::<(), RtError>(e) && *final(self) == *old(self),
            },
    {
        match self.locate(op) {
            Ok(l) => {
                self.store(l, v);
                Ok(())
            },
            Err(e) => Err(e),
        }
    }

    /// Replaces the value at the location `op` points to by `f` of it.
    pub fn modify(&mut self, op: &Op, f: impl Fn(usize) -> usize) -> (r: RtResult<()>)
        requires
            forall|x: usize| f.requires((x,)),
        ensures
            match target_spec(*old(self), *op) {
                Ok(l) => r is Ok && exists|v: usize|
                    f.ensures((loc_value(*old(self), l),), v) && #[trigger] stored(
                        *old(self),
                        *final(self),
                        l,
                        v,
                    ),
                Err(e) => r == Err::<(), RtError>(e) && *final(self) == *old(self),
            },
    {
        match self.locate(op) {
            Ok(l) => {
                let v = f(self.load(l));
                self.store(l, v);
                Ok(())
            },
            Err(e) => Err(e),
        }
    }
    /// Reads memory through the cell at `addr`.
    pub fn read_indirect(&self, addr: usize) -> (r: RtResult<usize>)
        ensures
            r == indirect_read(*self, addr),
    {
        match self.mem.get(&addr) {
            Ok(a2) => match self.mem.get(a2) {
                Ok(v) => Ok(*v),
                Err(_) => Err(RtError::InvalidIndirectAddr { src: addr, redirect: *a2 }),
            },
            Err(e) => Err(e),
        }
    }

    /// Reads memory at `addr` plus the index register.
    pub fn read_indexed(&self, addr: usize) -> (r: RtResult<usize>)
        ensures
            r == indexed_read(*self, addr),
    {
        if addr <= usize::MAX - self.ix {
            match self.mem.get(&(addr + self.ix)) {
                Ok(v) => Ok(*v),
                Err(_) => Err(RtError::InvalidIndexedAddr { src: addr, offset: self.ix }),
            }
        } else {
            Err(RtError::InvalidIndexedAddr { src: addr, offset: self.ix })
        }
    }

    /// Sets the program counter and raises the override flag.
    pub fn jump(&mut self, target: usize)
        ensures
            jumped(*old(self), *final(self), target),
    {
        self.override_flow_control();
        self.mar = target;
    }
}

} // verus!
