//! Input/output, program end, function call and return instructions.

use vstd::prelude::*;

use crate::arith::wrap_add;
use crate::context::{assigned, fails, jumped, read_spec, stored, target_spec, Context, Loc};
use crate::error::{RtError, RtResult};
use crate::inst::Op;
use crate::text::{radix_digits, radix_spec};

verus! {

/// Flags and the program counter are the same.
pub open spec fn kept_control(old: Context, new: Context) -> bool {
    &&& new.cmp == old.cmp
    &&& new.mar == old.mar
    &&& new.flow_override_reg == old.flow_override_reg
    &&& new.end == old.end
}

/// Registers and memory are the same.
pub open spec fn kept_data(old: Context, new: Context) -> bool {
    &&& new.acc == old.acc
    &&& new.ix == old.ix
    &&& new.ret == old.ret
    &&& new.gprs@ == old.gprs@
    &&& new.mem@ == old.mem@
}

/// Registers and memory are as in `old`, but with `v` stored at `l`.
pub open spec fn stored_data(old: Context, new: Context, l: Loc, v: usize) -> bool {
    &&& new.acc == (if l is Acc { v } else { old.acc })
    &&& new.ix == (if l is Ix { v } else { old.ix })
    &&& new.ret == (if l is Ar { v } else { old.ret })
    &&& new.gprs@ == (if let Loc::Gpr(n) = l { old.gprs@.update(n as int, v) } else { old.gprs@ })
    &&& new.mem@ == (if let Loc::Mem(a) = l { old.mem@.insert(a, v) } else { old.mem@ })
}

/// The byte an operand denotes, if its value fits in one.
pub open spec fn byte_of(ctx: Context, op: Op) -> Result<u8, RtError> {
    match read_spec(ctx, op) {
        Ok(v) => if v < 256 {
            Ok(v as u8)
        } else {
            Err(RtError::InvalidUtf8Byte(v))
        },
        Err(e) => Err(e),
    }
}

/// The bytes written for each operand in turn, up to the first that fails,
/// and the failure if there was one.
pub open spec fn out_run(ctx: Context, ops: Seq<Op>) -> (Seq<u8>, Option<RtError>)
    decreases ops.len(),
{
    if ops.len() == 0 {
        (Seq::empty(), None)
    } else {
        let (p, e) = out_run(ctx, ops.drop_last());
        if e is Some {
            (p, e)
        } else {
            match byte_of(ctx, ops.last()) {
                Ok(b) => (p.push(b), None),
                Err(x) => (p, Some(x)),
            }
        }
    }
}

/// `new` is `old` with `bytes` appended to the output.
pub open spec fn printed(old: Context, new: Context, bytes: Seq<u8>) -> bool {
    &&& kept_control(old, new)
    &&& kept_data(old, new)
    &&& new.io.output@ == old.io.output@ + bytes
    &&& new.io.input == old.io.input
    &&& new.io.read_pos == old.io.read_pos
}

/// Writes one byte, or fails without writing.
pub open spec fn printed_byte(old: Context, new: Context, r: RtResult<()>, b: Result<u8, RtError>) -> bool {
    match b {
        Ok(b) => r is Ok && printed(old, new, seq![b]),
        Err(e) => fails(old, new, r, e),
    }
}

/// `OUT` writes the accumulator as a byte, `OUT v` writes `v`, and
/// `OUT a,b,...` writes each operand in turn.
pub open spec fn out_post(old: Context, new: Context, op: Op, r: RtResult<()>) -> bool {
    match op {
        Op::Null => printed_byte(old, new, r, byte_of(old, Op::Acc)),
        Op::MultiOp(ops) => if forall|k: int| 0 <= k < ops.len() ==> (#[trigger] ops[k]).spec_is_usizeable() {
            let (bytes, err) = out_run(old, ops@);
            &&& printed(old, new, bytes)
            &&& r == match err {
                Some(e) => Err(e),
                None => Ok::<(), RtError>(()),
            }
        } else {
            fails(old, new, r, RtError::InvalidOperand)
        },
        _ => if op.spec_is_usizeable() {
            printed_byte(old, new, r, byte_of(old, op))
        } else {
            fails(old, new, r, RtError::InvalidOperand)
        },
    }
}

fn byte_from(ctx: &Context, op: &Op) -> (r: RtResult<u8>)
    ensures
        r == byte_of(*ctx, *op),
{
    match ctx.read(op) {
        Ok(v) => {
            if v < 256 {
                Ok(v as u8)
            } else {
                Err(RtError::InvalidUtf8Byte(v))
            }
        },
        Err(e) => Err(e),
    }
}

proof fn lemma_out_run_stops(ctx: Context, ops: Seq<Op>, i: int)
    requires
        0 <= i <= ops.len(),
        out_run(ctx, ops.subrange(0, i)).1 is Some,
    ensures
        out_run(ctx, ops) == out_run(ctx, ops.subrange(0, i)),
    decreases ops.len() - i,
{
    if i < ops.len() {
        assert(ops.subrange(0, i + 1).drop_last() =~= ops.subrange(0, i));
        lemma_out_run_stops(ctx, ops, i + 1);
    } else {
        assert(ops.subrange(0, i) =~= ops);
    }
}

/// `OUT`: write bytes to the output.
pub fn out(ctx: &mut Context, op: &Op) -> (r: RtResult<()>)
    ensures
        out_post(*old(ctx), *final(ctx), *op, r),
{
    match op {
        Op::Null => match byte_from(ctx, &Op::Acc) {
            Ok(b) => {
                ctx.io.write_bytes(&[b]);
                proof {
                    assert(seq![b] =~= [b]@);
                }
                Ok(())
            },
            Err(e) => Err(e),
        },
        Op::MultiOp(ops) => {
            let mut k: usize = 0;
            while k < ops.len()
                invariant
                    k <= ops.len(),
                    *op is MultiOp && op->MultiOp_0 == *ops,
                    *ctx == *old(ctx),
                    forall|j: int| 0 <= j < k ==> (#[trigger] ops[j]).spec_is_usizeable(),
                decreases ops.len() - k,
            {
                if !ops[k].is_usizeable() {
                    assert(!ops[k as int].spec_is_usizeable());
                    return Err(RtError::InvalidOperand);
                }
                k += 1;
            }
            let ghost start = *ctx;
            let mut i: usize = 0;
            while i < ops.len()
                invariant
                    i <= ops.len(),
                    *op is MultiOp && op->MultiOp_0 == *ops,
                    start == *old(ctx),
                    out_run(start, ops@.subrange(0, i as int)).1 is None,
                    printed(start, *ctx, out_run(start, ops@.subrange(0, i as int)).0),
                    kept_data(start, *ctx),
                    forall|j: int| 0 <= j < ops.len() ==> (#[trigger] ops[j]).spec_is_usizeable(),
                decreases ops.len() - i,
            {
                proof {
                    assert(ops@.subrange(0, i + 1).drop_last() =~= ops@.subrange(0, i as int));
                }
                proof {
                    crate::context::lemma_same_data_reads(start, *ctx, ops[i as int]);
                }
                match byte_from(ctx, &ops[i]) {
                    Ok(b) => {
                        ctx.io.write_bytes(&[b]);
                        proof {
                            assert([b]@ =~= seq![b]);
                            let p = out_run(start, ops@.subrange(0, i as int)).0;
                            assert(ctx.io.output@ =~= start.io.output@ + p.push(b));
                        }
                    },
                    Err(e) => {
                        proof {
                            lemma_out_run_stops(start, ops@, i + 1);
                            assert(ops@.subrange(0, ops.len() as int) =~= ops@);
                        }
                        return Err(e);
                    },
                }
                i += 1;
            }
            proof {
                assert(ops@.subrange(0, i as int) =~= ops@);
            }
            Ok(())
        },
        _ => {
            if op.is_usizeable() {
                match byte_from(ctx, op) {
                    Ok(b) => {
                        ctx.io.write_bytes(&[b]);
                        proof {
                            assert(seq![b] =~= [b]@);
                        }
                        Ok(())
                    },
                    Err(e) => Err(e),
                }
            } else {
                Err(RtError::InvalidOperand)
            }
        },
    }
}

/// `new` consumed one input byte and left the output as it was.
pub open spec fn consumed(old: Context, new: Context) -> bool {
    &&& new.io.pending() == old.io.pending().drop_first()
    &&& new.io.output == old.io.output
}

/// `IN` reads one input byte into the accumulator; `IN d` into `d`. With no
/// input left the instruction fails with an I/O error.
pub open spec fn inp_post(old: Context, new: Context, op: Op, r: RtResult<()>) -> bool {
    if op is Null || op.spec_is_read_write() {
        if old.io.pending().len() == 0 {
            r is Err && r->Err_0 is IoError && new == old
        } else {
            let b = old.io.pending()[0] as usize;
            let dest = if op is Null { Op::Acc } else { op };
            &&& consumed(old, new)
            &&& kept_control(old, new)
            &&& match target_spec(old, dest) {
                Ok(l) => r is Ok && stored_data(old, new, l, b),
                Err(e) => r == Err::<(), RtError>(e) && kept_data(old, new),
            }
        }
    } else {
        fails(old, new, r, RtError::InvalidOperand)
    }
}

/// `IN`: read a byte of input.
pub fn inp(ctx: &mut Context, op: &Op) -> (r: RtResult<()>)
    ensures
        inp_post(*old(ctx), *final(ctx), *op, r),
{
    if op.is_none() || op.is_read_write() {
        match ctx.io.read_byte() {
            Some(b) => {
                proof {
                    crate::context::lemma_same_data_reads(*old(ctx), *ctx, *op);
                    crate::context::lemma_same_data_reads(*old(ctx), *ctx, Op::Acc);
                }
                if op.is_none() {
                    ctx.assign(&Op::Acc, b as usize)
                } else {
                    ctx.assign(op, b as usize)
                }
            },
            None => Err(RtError::IoError("Input is empty".to_owned())),
        }
    } else {
        Err(RtError::InvalidOperand)
    }
}

/// `END` raises the end flag and changes nothing else.
pub open spec fn end_post(old: Context, new: Context, r: RtResult<()>) -> bool {
    &&& r is Ok
    &&& new.end
    &&& kept_data(old, new)
    &&& new.io == old.io
    &&& new.cmp == old.cmp
    &&& new.mar == old.mar
    &&& new.flow_override_reg == old.flow_override_reg
}

/// `END`: stop the program.
pub fn end(ctx: &mut Context, op: &Op) -> (r: RtResult<()>)
    ensures
        end_post(*old(ctx), *final(ctx), r),
{
    ctx.end = true;
    Ok(())
}

/// `NOP`: do nothing.
pub fn nop(ctx: &mut Context, op: &Op) -> (r: RtResult<()>)
    ensures
        r is Ok && *final(ctx) == *old(ctx),
{
    Ok(())
}

/// `CALL a` saves the address of the next instruction in `AR` and jumps
/// to `a`.
pub open spec fn call_post(old: Context, new: Context, op: Op, r: RtResult<()>) -> bool {
    match op {
        Op::Addr(a) => {
            &&& r is Ok
            &&& new.ret == wrap_add(old.mar, 1)
            &&& new.mar == a
            &&& new.flow_override_reg
            &&& new.acc == old.acc
            &&& new.ix == old.ix
            &&& new.gprs@ == old.gprs@
            &&& new.mem@ == old.mem@
            &&& new.io == old.io
            &&& new.cmp == old.cmp
            &&& new.end == old.end
        },
        _ => fails(old, new, r, RtError::InvalidOperand),
    }
}

/// `CALL`: call a function.
pub fn call(ctx: &mut Context, op: &Op) -> (r: RtResult<()>)
    ensures
        call_post(*old(ctx), *final(ctx), *op, r),
{
    match op {
        Op::Addr(a) => {
            let mut back = ctx.mar;
            crate::arith::checked_add(&mut back, 1);
            ctx.ret = back;
            ctx.jump(*a);
            Ok(())
        },
        _ => Err(RtError::InvalidOperand),
    }
}

/// `RET`: jump to the address saved in `AR`.
pub fn ret(ctx: &mut Context, op: &Op) -> (r: RtResult<()>)
    ensures
        r is Ok,
        jumped(*old(ctx), *final(ctx), old(ctx).ret),
{
    let target = ctx.ret;
    ctx.jump(target);
    Ok(())
}

/// Clearing the writable operands of `ops` in turn takes `old` to `new`
/// with result `r`; each target is found in the context the earlier ones
/// left, and the first that names no location stops the run with its error.
pub open spec fn zero_run(old: Context, new: Context, ops: Seq<Op>, r: RtResult<()>) -> bool
    decreases ops.len(),
{
    if ops.len() == 0 {
        r is Ok && new == old
    } else if !ops[0].spec_is_read_write() {
        zero_run(old, new, ops.drop_first(), r)
    } else {
        match target_spec(old, ops[0]) {
            Ok(l) => exists|mid: Context| #[trigger] stored(old, mid, l, 0) && zero_run(mid, new, ops.drop_first(), r),
            Err(e) => r == Err::<(), RtError>(e) && new == old,
        }
    }
}

/// `ZERO` clears the accumulator, `ZERO d` clears `d`, and `ZERO a,b,...`
/// clears each writable operand in turn, stopping at the first failure.
pub open spec fn zero_post(old: Context, new: Context, op: Op, r: RtResult<()>) -> bool {
    match op {
        Op::Null => assigned(old, new, r, Op::Acc, 0),
        Op::MultiOp(ops) => zero_run(old, new, ops@, r),
        _ => if op.spec_is_read_write() {
            assigned(old, new, r, op, 0)
        } else {
            fails(old, new, r, RtError::InvalidOperand)
        },
    }
}

/// `ZERO`: clear registers or memory.
pub fn zero(ctx: &mut Context, op: &Op) -> (r: RtResult<()>)
    ensures
        zero_post(*old(ctx), *final(ctx), *op, r),
{
    match op {
        Op::MultiOp(ops) => {
            let n = ops.len();
            let mut i: usize = 0;
            proof {
                assert(ops@.subrange(0, n as int) =~= ops@);
            }
            while i < n
                invariant
                    i <= n == ops@.len(),
                    *op is MultiOp && op->MultiOp_0 == *ops,
                    forall|c: Context, rr: RtResult<()>|
                        #[trigger] zero_run(*ctx, c, ops@.subrange(i as int, n as int), rr) ==> zero_run(*old(ctx), c, ops@, rr),
                decreases n - i,
            {
                let ghost before = *ctx;
                let ghost sub = ops@.subrange(i as int, n as int);
                proof {
                    assert(sub.drop_first() =~= ops@.subrange(i + 1, n as int));
                    assert(sub[0] == ops@[i as int]);
                }
                if ops[i].is_read_write() {
                    match ctx.assign(&ops[i], 0) {
                        Ok(()) => {
                            proof {
                                assert forall|c: Context, rr: RtResult<()>|
                                    #[trigger] zero_run(*ctx, c, ops@.subrange(i + 1, n as int), rr) implies zero_run(*old(ctx), c, ops@, rr) by {
                                    let l = target_spec(before, ops@[i as int])->Ok_0;
                                    assert(stored(before, *ctx, l, 0));
                                    assert(zero_run(before, c, sub, rr));
                                }
                            }
                        },
                        Err(e) => {
                            proof {
                                assert(zero_run(before, *ctx, sub, Err::<(), RtError>(e)));
                            }
                            return Err(e);
                        },
                    }
                } else {
                    proof {
                        assert forall|c: Context, rr: RtResult<()>|
                            #[trigger] zero_run(*ctx, c, ops@.subrange(i + 1, n as int), rr) implies zero_run(*old(ctx), c, ops@, rr) by {
                            assert(zero_run(before, c, sub, rr));
                        }
                    }
                }
                i += 1;
            }
            proof {
                assert(ops@.subrange(n as int, n as int).len() == 0);
                assert(zero_run(*ctx, *ctx, ops@.subrange(n as int, n as int), Ok::<(), RtError>(())));
            }
            Ok(())
        },
        Op::Null => ctx.assign(&Op::Acc, 0),
        _ => {
            if op.is_read_write() {
                ctx.assign(op, 0)
            } else {
                Err(RtError::InvalidOperand)
            }
        },
    }
}

/// Length of the first line of `p`, its line feed included.
pub open spec fn line_len(p: Seq<u8>) -> nat
    decreases p.len(),
{
    if p.len() == 0 {
        0
    } else if p[0] == 10 {
        1
    } else {
        1 + line_len(p.drop_first())
    }
}

/// A blank: space, tab, line feed, vertical tab, form feed, carriage return.
pub open spec fn is_blank(b: u8) -> bool {
    b == 32 || (9 <= b && b <= 13)
}

/// The bytes without leading and trailing blanks.
pub open spec fn trim_spec(s: Seq<u8>) -> Seq<u8>
    decreases s.len(),
{
    if s.len() > 0 && is_blank(s[0]) {
        trim_spec(s.drop_first())
    } else if s.len() > 0 && is_blank(s.last()) {
        trim_spec(s.drop_last())
    } else {
        s
    }
}

/// The number a line of input holds: decimal digits after an optional `+`.
pub open spec fn input_number(s: Seq<u8>) -> Option<usize> {
    let t = trim_spec(s);
    crate::inst::decimal_of(t.map_values(|b: u8| b as char))
}

fn trim(s: &[u8]) -> (r: Vec<u8>)
    ensures
        r@ == trim_spec(s@),
{
    let mut a: usize = 0;
    let mut b: usize = s.len();
    proof {
        assert(s@.subrange(0, b as int) =~= s@);
    }
    while a < b && (s[a] == 32 || (9 <= s[a] && s[a] <= 13))
        invariant
            a <= b == s@.len(),
            trim_spec(s@) == trim_spec(s@.subrange(a as int, b as int)),
        decreases b - a,
    {
        proof {
            assert(s@.subrange(a as int, b as int).drop_first() =~= s@.subrange(a + 1, b as int));
        }
        a += 1;
    }
    while a < b && (s[b - 1] == 32 || (9 <= s[b - 1] && s[b - 1] <= 13))
        invariant
            a <= b <= s@.len(),
            a == b || !is_blank(s@[a as int]),
            trim_spec(s@) == trim_spec(s@.subrange(a as int, b as int)),
        decreases b - a,
    {
        proof {
            let t = s@.subrange(a as int, b as int);
            assert(t.drop_last() =~= s@.subrange(a as int, b - 1));
            assert(t[0] == s@[a as int]);
        }
        b -= 1;
    }
    let mut out: Vec<u8> = Vec::new();
    let mut k = a;
    while k < b
        invariant
            a <= k <= b <= s@.len(),
            out@ == s@.subrange(a as int, k as int),
        decreases b - k,
    {
        out.push(s[k]);
        k += 1;
        proof {
            assert(out@ =~= s@.subrange(a as int, k as int));
        }
    }
    proof {
        let t = s@.subrange(a as int, b as int);
        if t.len() > 0 {
            assert(t[0] == s@[a as int]);
            assert(t.last() == s@[b - 1]);
        }
        assert(trim_spec(t) == t);
    }
    out
}

/// `RIN` reads a line of input as a number into the accumulator; `RIN d`
/// into `d`. A line that holds no number is an error.
pub open spec fn rin_post(old: Context, new: Context, op: Op, r: RtResult<()>) -> bool {
    if op is Null || op.spec_is_read_write() {
        let p = old.io.pending();
        let line = p.subrange(0, line_len(p) as int);
        let dest = if op is Null { Op::Acc } else { op };
        &&& new.io.pending() == p.subrange(line_len(p) as int, p.len() as int)
        &&& new.io.output == old.io.output
        &&& kept_control(old, new)
        &&& match input_number(line) {
            Some(v) => match target_spec(old, dest) {
                Ok(l) => r is Ok && stored_data(old, new, l, v),
                Err(e) => r == Err::<(), RtError>(e) && kept_data(old, new),
            },
            None => r is Err && r->Err_0 is Other && kept_data(old, new),
        }
    } else {
        fails(old, new, r, RtError::InvalidOperand)
    }
}

proof fn lemma_line_len(p: Seq<u8>, k: int)
    requires
        0 <= k <= p.len(),
        forall|j: int| 0 <= j < k ==> p[j] != 10,
        k == p.len() || p[k] == 10,
    ensures
        line_len(p) == if k < p.len() { k + 1 } else { k },
    decreases k,
{
    if k > 0 {
        lemma_line_len(p.drop_first(), k - 1);
    }
}

/// `RIN`: read a number from a line of input.
pub fn rin(ctx: &mut Context, op: &Op) -> (r: RtResult<()>)
    ensures
        rin_post(*old(ctx), *final(ctx), *op, r),
{
    if !(op.is_none() || op.is_read_write()) {
        return Err(RtError::InvalidOperand);
    }
    let ghost p = old(ctx).io.pending();
    assert(p.len() <= usize::MAX);
    let mut line: Vec<u8> = Vec::new();
    let mut k: usize = 0;
    loop
        invariant
            line@ == p.subrange(0, k as int),
            k <= p.len() <= usize::MAX,
            p == old(ctx).io.pending(),
            ctx.io.pending() == p.subrange(k as int, p.len() as int),
            ctx.io.output == old(ctx).io.output,
            forall|j: int| 0 <= j < k ==> p[j] != 10 || j == k - 1,
            k > 0 && p[k - 1] == 10 ==> line_len(p) == k,
            kept_control(*old(ctx), *ctx),
            kept_data(*old(ctx), *ctx),
        ensures
            line_len(p) == k,
            line@ == p.subrange(0, k as int),
            k <= p.len(),
            ctx.io.pending() == p.subrange(k as int, p.len() as int),
            ctx.io.output == old(ctx).io.output,
            kept_control(*old(ctx), *ctx),
            kept_data(*old(ctx), *ctx),
        decreases p.len() - k,
    {
        if k > 0 && line[k - 1] == 10 {
            break;
        }
        proof {
            assert(forall|j: int| 0 <= j < k ==> p[j] != 10);
        }
        match ctx.io.read_byte() {
            Some(b) => {
                proof {
                    assert(ctx.io.pending() =~= p.subrange(k + 1, p.len() as int));
                    assert(b == p[k as int]);
                }
                line.push(b);
                k += 1;
                proof {
                    assert(line@ =~= p.subrange(0, k as int));
                    if b == 10 {
                        lemma_line_len(p, k - 1);
                    }
                }
            },
            None => {
                proof {
                    assert(k == p.len());
                    lemma_line_len(p, k as int);
                }
                break;
            },
        }
    }
    assert(line_len(p) == k);
    assert(line@ == p.subrange(0, line_len(p) as int));
    let t = trim(line.as_slice());
    let mut cs: Vec<char> = Vec::new();
    let mut i: usize = 0;
    while i < t.len()
        invariant
            i <= t@.len(),
            cs@ == t@.subrange(0, i as int).map_values(|b: u8| b as char),
        decreases t.len() - i,
    {
        cs.push(t[i] as char);
        i += 1;
        proof {
            assert(cs@ =~= t@.subrange(0, i as int).map_values(|b: u8| b as char));
        }
    }
    proof {
        assert(t@.subrange(0, i as int) =~= t@);
        lemma_same_data_reads_io(*old(ctx), *ctx, *op);
    }
    let n = cs.len();
    let v = if n > 0 && cs[0] == '+' {
        proof {
            assert(cs@.drop_first() =~= cs@.subrange(1, n as int));
        }
        crate::text::parse_radix(cs.as_slice(), 1, n, 10)
    } else {
        proof {
            assert(cs@ =~= cs@.subrange(0, n as int));
        }
        crate::text::parse_radix(cs.as_slice(), 0, n, 10)
    };
    assert(v == input_number(line@));
    match v {
        Some(v) => {
            if op.is_none() {
                ctx.assign(&Op::Acc, v)
            } else {
                ctx.assign(op, v)
            }
        },
        None => Err(RtError::Other("Unable to parse the input as a number".to_owned())),
    }
}

proof fn lemma_same_data_reads_io(c1: Context, c2: Context, op: Op)
    requires
        kept_data(c1, c2),
    ensures
        target_spec(c1, op) == target_spec(c2, op),
        target_spec(c1, Op::Acc) == target_spec(c2, Op::Acc),
{
    crate::context::lemma_same_data_reads(c1, c2, op);
    crate::context::lemma_same_data_reads(c1, c2, Op::Acc);
}

/// The values of the operands that can be read, in decimal, each followed by
/// `", "` unless it is read at position `n - 1` among the values read; and
/// how many were read.
pub open spec fn dbg_join(ctx: Context, ops: Seq<Op>, n: int) -> (Seq<char>, int)
    decreases ops.len(),
{
    if ops.len() == 0 {
        (Seq::empty(), 0)
    } else {
        let (t, c) = dbg_join(ctx, ops.drop_last(), n);
        match read_spec(ctx, ops.last()) {
            Ok(v) => (t + radix_spec(v as nat, 10) + if c == n - 1 {
                Seq::empty()
            } else {
                ", "@
            }, c + 1),
            Err(_) => (t, c),
        }
    }
}

/// The bytes of ASCII text.
pub open spec fn ascii_bytes(t: Seq<char>) -> Seq<u8> {
    t.map_values(|c: char| c as u8)
}

/// The registers and flags as text.
pub open spec fn context_text(ctx: Context) -> Seq<char> {
    "Context { mar: "@ + radix_spec(ctx.mar as nat, 10) + ", acc: "@ + radix_spec(ctx.acc as nat, 10)
        + ", ix: "@ + radix_spec(ctx.ix as nat, 10) + ", ar: "@ + radix_spec(ctx.ret as nat, 10)
        + ", cmp: "@ + (if ctx.cmp { "true"@ } else { "false"@ }) + " }"@
}

/// `DBG` writes the registers and flags; `DBG v` writes `v` in decimal;
/// `DBG a,b,...` writes the values that can be read, separated by commas.
/// Each ends with a line feed.
pub open spec fn dbg_post(old: Context, new: Context, op: Op, r: RtResult<()>) -> bool {
    match op {
        Op::Null => r is Ok && printed(old, new, ascii_bytes(context_text(old) + "\n"@)),
        Op::MultiOp(ops) => if forall|k: int| 0 <= k < ops.len() ==> (#[trigger] ops[k]).spec_is_usizeable() {
            r is Ok && printed(old, new, ascii_bytes(dbg_join(old, ops@, ops.len() as int).0 + "\n"@))
        } else {
            fails(old, new, r, RtError::InvalidMultiOp)
        },
        _ => if op.spec_is_usizeable() {
            match read_spec(old, op) {
                Ok(v) => r is Ok && printed(old, new, ascii_bytes(radix_spec(v as nat, 10) + "\n"@)),
                Err(e) => fails(old, new, r, e),
            }
        } else {
            fails(old, new, r, RtError::InvalidOperand)
        },
    }
}

fn write_text(ctx: &mut Context, t: &Vec<char>)
    ensures
        printed(*old(ctx), *final(ctx), ascii_bytes(t@)),
{
    let mut bytes: Vec<u8> = Vec::new();
    let mut i: usize = 0;
    while i < t.len()
        invariant
            i <= t@.len(),
            bytes@ == ascii_bytes(t@.subrange(0, i as int)),
        decreases t.len() - i,
    {
        bytes.push(t[i] as u8);
        i += 1;
        proof {
            assert(bytes@ =~= ascii_bytes(t@.subrange(0, i as int)));
        }
    }
    proof {
        assert(t@.subrange(0, i as int) =~= t@);
    }
    ctx.io.write_bytes(bytes.as_slice());
}

/// `DBG`: write values for debugging.
pub fn dbg(ctx: &mut Context, op: &Op) -> (r: RtResult<()>)
    ensures
        dbg_post(*old(ctx), *final(ctx), *op, r),
{
    let mut text: Vec<char> = Vec::new();
    match op {
        Op::Null => {
            crate::text::extend_str(&mut text, "Context { mar: ");
            crate::text::extend_chars(&mut text, radix_digits(ctx.mar as u128, 10).as_slice());
            crate::text::extend_str(&mut text, ", acc: ");
            crate::text::extend_chars(&mut text, radix_digits(ctx.acc as u128, 10).as_slice());
            crate::text::extend_str(&mut text, ", ix: ");
            crate::text::extend_chars(&mut text, radix_digits(ctx.ix as u128, 10).as_slice());
            crate::text::extend_str(&mut text, ", ar: ");
            crate::text::extend_chars(&mut text, radix_digits(ctx.ret as u128, 10).as_slice());
            crate::text::extend_str(&mut text, ", cmp: ");
            if ctx.cmp {
                crate::text::extend_str(&mut text, "true");
            } else {
                crate::text::extend_str(&mut text, "false");
            }
            crate::text::extend_str(&mut text, " }");
        },
        Op::MultiOp(ops) => {
            let mut k: usize = 0;
            while k < ops.len()
                invariant
                    k <= ops.len(),
                    *op is MultiOp && op->MultiOp_0 == *ops,
                    *ctx == *old(ctx),
                    forall|j: int| 0 <= j < k ==> (#[trigger] ops[j]).spec_is_usizeable(),
                decreases ops.len() - k,
            {
                if !ops[k].is_usizeable() {
                    assert(!ops[k as int].spec_is_usizeable());
                    return Err(RtError::InvalidMultiOp);
                }
                k += 1;
            }
            let n = ops.len();
            let mut count: usize = 0;
            let mut i: usize = 0;
            while i < n
                invariant
                    i <= n == ops@.len(),
                    *op is MultiOp && op->MultiOp_0 == *ops,
                    *ctx == *old(ctx),
                    count <= i,
                    (text@, count as int) == dbg_join(*ctx, ops@.subrange(0, i as int), n as int),
                decreases n - i,
            {
                proof {
                    assert(ops@.subrange(0, i + 1).drop_last() =~= ops@.subrange(0, i as int));
                }
                match ctx.read(&ops[i]) {
                    Ok(v) => {
                        crate::text::extend_chars(&mut text, radix_digits(v as u128, 10).as_slice());
                        if count != n - 1 {
                            crate::text::extend_str(&mut text, ", ");
                        }
                        count += 1;
                        proof {
                            reveal_strlit("");
                        }
                    },
                    Err(_) => {},
                }
                i += 1;
            }
            proof {
                assert(ops@.subrange(0, n as int) =~= ops@);
            }
        },
        _ => {
            if !op.is_usizeable() {
                return Err(RtError::InvalidOperand);
            }
            match ctx.read(op) {
                Ok(v) => crate::text::extend_chars(&mut text, radix_digits(v as u128, 10).as_slice()),
                Err(e) => return Err(e),
            }
        },
    }
    crate::text::extend_str(&mut text, "\n");
    proof {
        reveal_strlit("");
    }
    write_text(ctx, &text);
    Ok(())
}

} // verus!
