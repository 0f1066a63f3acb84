//! The executor: a fetch-decode-execute loop over a linked program.

use std::collections::BTreeMap;
use vstd::prelude::*;

use crate::context::{same_data, Context};
use crate::error::{RtError, RtResult};
use crate::inst::{op_text, Op};
use crate::inst_set::InstSet;
use crate::lexer::Span;
use crate::text::{chars_of, extend_chars, extend_str, radix_digits, radix_spec, string_from_chars};

verus! {

broadcast use vstd::laws_cmp::group_laws_cmp, vstd::std_specs::btree::group_btree_axioms,
    vstd::string::group_string_axioms;

/// Runtime representation of an instruction: its id in the instruction set
/// and its operand.
#[derive(Debug)]
pub struct ExecInst {
    pub id: u64,
    pub op: Op,
}

impl ExecInst {
    pub fn new(id: u64, op: Op) -> (r: ExecInst)
        ensures
            r.id == id,
            r.op == op,
    {
        ExecInst { id, op }
    }
}

/// Source labels of readdressed instructions and memory cells, and the
/// spans of the source recognised as instructions.
#[derive(Debug, Default)]
pub struct DebugInfo {
    pub prog: BTreeMap<usize, String>,
    pub mem: BTreeMap<usize, String>,
    pub inst_spans: Vec<Span>,
}

impl DebugInfo {
    pub fn new() -> (r: DebugInfo)
        ensures
            r.prog@.len() == 0,
            r.mem@.len() == 0,
            r.inst_spans@.len() == 0,
    {
        DebugInfo { prog: BTreeMap::new(), mem: BTreeMap::new(), inst_spans: Vec::new() }
    }
}

/// Execution status after a step.
#[derive(Debug)]
pub enum Status {
    /// The program has finished.
    Complete,
    /// The program has more to run.
    Continue,
    /// An instruction failed.
    Error(RtError),
}

/// How the program counter moves once an instruction has run on `mid`: it
/// stays where the instruction put it if the instruction raised the override
/// flag, and advances by one otherwise; the flag is cleared.
pub open spec fn advanced(mid: Context, new: Context) -> bool {
    &&& !new.flow_override_reg
    &&& new.mar == if mid.flow_override_reg {
        mid.mar
    } else {
        (mid.mar + 1) as usize
    }
    &&& same_data(mid, new)
    &&& new.cmp == mid.cmp
    &&& new.end == mid.end
}

/// Clears the override flag, or advances the counter if it was not raised.
pub fn finish_instruction(ctx: &mut Context) -> (ok: bool)
    ensures
        ok == (old(ctx).flow_override_reg || old(ctx).mar < usize::MAX),
        ok ==> advanced(*old(ctx), *final(ctx)),
        !ok ==> *final(ctx) == *old(ctx) && !old(ctx).flow_override_reg && old(ctx).mar
            == usize::MAX,
{
    if ctx.flow_override_reg {
        ctx.flow_override_reg = false;
        true
    } else if ctx.mar < usize::MAX {
        ctx.mar = ctx.mar + 1;
        true
    } else {
        false
    }
}

/// The source text, without comment lines, for error reports.
#[derive(Debug, Default)]
pub struct Source(pub Vec<String>);

/// A comment line.
pub open spec fn is_comment(l: Seq<char>) -> bool {
    l.len() >= 2 && l[0] == '/' && l[1] == '/'
}

/// Index of the first line feed, or the length if there is none.
pub open spec fn first_lf(s: Seq<char>) -> int
    decreases s.len(),
{
    if s.len() == 0 {
        0
    } else if s[0] == '\n' {
        0
    } else {
        1 + first_lf(s.drop_first())
    }
}

/// Where the first line feed is.
pub proof fn lemma_first_lf(s: Seq<char>)
    ensures
        0 <= first_lf(s) <= s.len(),
        first_lf(s) < s.len() ==> s[first_lf(s)] == '\n',
        forall|j: int| 0 <= j < first_lf(s) ==> s[j] != '\n',
    decreases s.len(),
{
    if s.len() > 0 && s[0] != '\n' {
        lemma_first_lf(s.drop_first());
        assert forall|j: int| 0 <= j < first_lf(s) implies s[j] != '\n' by {
            if j > 0 {
                assert(s[j] == s.drop_first()[j - 1]);
            }
        }
    }
}

/// A line without the carriage return that ended it.
pub open spec fn strip_cr(s: Seq<char>) -> Seq<char> {
    if s.len() > 0 && s.last() == '\r' {
        s.drop_last()
    } else {
        s
    }
}

/// The lines of a text that are not comments: split at line feeds, a
/// carriage return before a line feed dropped, no empty line after a final
/// line feed.
pub open spec fn kept_lines(s: Seq<char>) -> Seq<Seq<char>>
    decreases s.len(),
{
    if s.len() == 0 {
        Seq::empty()
    } else {
        proof {
            lemma_first_lf(s);
        }
        let k = first_lf(s);
        let line = strip_cr(s.subrange(0, k));
        let rest = if k < s.len() {
            kept_lines(s.subrange(k + 1, s.len() as int))
        } else {
            Seq::empty()
        };
        if is_comment(line) {
            rest
        } else {
            seq![line] + rest
        }
    }
}

impl Source {
    /// The lines of `text` that are not comments.
    pub fn new(text: &str) -> (r: Source)
        ensures
            r.lines() == kept_lines(text@),
    {
        let cs = chars_of(text);
        let mut out: Vec<String> = Vec::new();
        let mut start: usize = 0;
        proof {
            assert(cs@.subrange(0, cs@.len() as int) =~= text@);
        }
        while start < cs.len()
            invariant
                start <= cs@.len(),
                cs@ == text@,
                kept_lines(text@) == out@.map_values(|s: String| s@) + kept_lines(cs@.subrange(start as int, cs@.len() as int)),
            decreases cs.len() - start,
        {
            let ghost rest = cs@.subrange(start as int, cs@.len() as int);
            proof {
                lemma_first_lf(rest);
            }
            let mut k: usize = start;
            while k < cs.len() && cs[k] != '\n'
                invariant
                    start <= k <= cs@.len(),
                    rest == cs@.subrange(start as int, cs@.len() as int),
                    forall|j: int| start <= j < k ==> cs@[j] != '\n',
                decreases cs.len() - k,
            {
                k += 1;
            }
            proof {
                assert(first_lf(rest) == k - start) by {
                    if first_lf(rest) < k - start {
                        assert(rest[first_lf(rest)] == cs@[start + first_lf(rest)]);
                    }
                    if first_lf(rest) > k - start {
                        assert(rest[k - start] == cs@[k as int]);
                    }
                }
            }
            let mut e = k;
            if e > start && cs[e - 1] == '\r' {
                e = e - 1;
            }
            let line = &cs.as_slice()[start..e];
            let ghost whole = rest.subrange(0, k - start);
            proof {
                assert(whole =~= cs@.subrange(start as int, k as int));
                assert(line@ =~= strip_cr(whole));
            }
            let ghost old_out = out@.map_values(|s: String| s@);
            if !(line.len() >= 2 && line[0] == '/' && line[1] == '/') {
                let l = string_from_chars(line);
                out.push(l);
                proof {
                    assert(out@.map_values(|s: String| s@) =~= old_out.push(line@));
                }
            }
            let next = if k < cs.len() {
                k + 1
            } else {
                k
            };
            proof {
                let tail = cs@.subrange(next as int, cs@.len() as int);
                if k < cs@.len() {
                    assert(rest.subrange(k - start + 1, rest.len() as int) =~= tail);
                } else {
                    assert(tail.len() == 0);
                    assert(kept_lines(tail) =~= Seq::<Seq<char>>::empty());
                }
                assert(rest.len() > 0);
                if is_comment(line@) {
                    assert(kept_lines(rest) == kept_lines(tail));
                    assert(out@.map_values(|s: String| s@) == old_out);
                } else {
                    assert(kept_lines(rest) == seq![line@] + kept_lines(tail));
                    assert(old_out.push(line@) + kept_lines(tail) =~= old_out + (seq![line@] + kept_lines(tail)));
                }
            }
            start = next;
        }
        proof {
            assert(cs@.subrange(start as int, cs@.len() as int).len() == 0);
            assert(kept_lines(cs@.subrange(start as int, cs@.len() as int)) =~= Seq::<Seq<char>>::empty());
            assert(out@.map_values(|s: String| s@) + Seq::<Seq<char>>::empty() =~= out@.map_values(|s: String| s@));
        }
        Source(out)
    }
}

/// `a`, then `mid`, then `b`.
fn cat3(a: &str, mid: &[char], b: &str) -> (r: Vec<char>)
    ensures
        r@ == a@ + mid@ + b@,
{
    let mut v: Vec<char> = Vec::new();
    extend_str(&mut v, a);
    extend_chars(&mut v, mid);
    extend_str(&mut v, b);
    proof {
        assert(v@ =~= a@ + mid@ + b@);
    }
    v
}

/// Decimal digits of a number.
pub open spec fn dec(n: nat) -> Seq<char> {
    radix_spec(n, 10)
}

/// The human-readable message of a runtime error.
pub open spec fn message_spec(e: RtError) -> Seq<char> {
    match e {
        RtError::Other(s) => s@,
        RtError::IoError(s) => "Unexpected I/O error, caused by: "@ + s@,
        RtError::InvalidUtf8Byte(x) => "#x"@ + radix_spec(x as nat, 16) + " is not a valid UTF-8 byte."@,
        RtError::InvalidOperand => "Operand is not a memory address, register, or literal"@,
        RtError::NoOpInst => "No operand needed"@,
        RtError::NoOperand => "Operand missing"@,
        RtError::InvalidAddr(a) => "Invalid memory address `"@ + dec(a as nat) + "`"@,
        RtError::InvalidIndirectAddr { src, redirect } => "Invalid indirect access address "@ + dec(
            redirect as nat,
        ) + " at memory address "@ + dec(src as nat),
        RtError::InvalidIndexedAddr { src, offset } => "Invalid indexed access address `"@ + dec(
            (src + offset) as nat,
        ) + "` from "@ + dec(src as nat) + " + "@ + dec(offset as nat),
        RtError::InvalidMultiOp => "Invalid operand sequence"@,
        RtError::InvalidProgAddr(a) => "No instruction at program address "@ + dec(a as nat),
        RtError::InvalidInstId(id) => "0x"@ + radix_spec(id as nat, 16) + " is not a valid instruction ID"@,
    }
}

impl RtError {
    /// The human-readable message.
    pub fn message(&self) -> (r: String)
        ensures
            r@ == message_spec(*self),
    {
        let v: Vec<char> = match self {
            RtError::Other(s) => chars_of(s.as_str()),
            RtError::IoError(s) => {
                let m = chars_of(s.as_str());
                let mut v = chars_of("Unexpected I/O error, caused by: ");
                extend_chars(&mut v, m.as_slice());
                v
            },
            RtError::InvalidUtf8Byte(x) => {
                let d = radix_digits(*x as u128, 16);
                cat3("#x", d.as_slice(), " is not a valid UTF-8 byte.")
            },
            RtError::InvalidOperand => chars_of("Operand is not a memory address, register, or literal"),
            RtError::NoOpInst => chars_of("No operand needed"),
            RtError::NoOperand => chars_of("Operand missing"),
            RtError::InvalidAddr(a) => {
                let d = radix_digits(*a as u128, 10);
                cat3("Invalid memory address `", d.as_slice(), "`")
            },
            RtError::InvalidIndirectAddr { src, redirect } => {
                let d1 = radix_digits(*redirect as u128, 10);
                let d2 = radix_digits(*src as u128, 10);
                let mut v = chars_of("Invalid indirect access address ");
                extend_chars(&mut v, d1.as_slice());
                extend_str(&mut v, " at memory address ");
                extend_chars(&mut v, d2.as_slice());
                v
            },
            RtError::InvalidIndexedAddr { src, offset } => {
                let d0 = radix_digits(*src as u128 + *offset as u128, 10);
                let d1 = radix_digits(*src as u128, 10);
                let d2 = radix_digits(*offset as u128, 10);
                let mut v = cat3("Invalid indexed access address `", d0.as_slice(), "` from ");
                extend_chars(&mut v, d1.as_slice());
                extend_str(&mut v, " + ");
                extend_chars(&mut v, d2.as_slice());
                proof {
                    assert(d0@ == dec((*src + *offset) as nat));
                }
                v
            },
            RtError::InvalidMultiOp => chars_of("Invalid operand sequence"),
            RtError::InvalidProgAddr(a) => {
                let d = radix_digits(*a as u128, 10);
                let mut v = chars_of("No instruction at program address ");
                extend_chars(&mut v, d.as_slice());
                v
            },
            RtError::InvalidInstId(id) => {
                let d = radix_digits(*id as u128, 16);
                cat3("0x", d.as_slice(), " is not a valid instruction ID")
            },
        };
        string_from_chars(v.as_slice())
    }
}

/// `n` right-aligned in a field of `w` characters.
pub open spec fn padded(n: nat, w: nat) -> Seq<char> {
    Seq::new(if dec(n).len() < w { (w - dec(n).len()) as nat } else { 0 }, |i: int| ' ') + dec(n)
}

/// One line of an error report: the line number, four spaces, the text.
pub open spec fn report_line(n: nat, w: nat, text: Seq<char>, mark: bool) -> Seq<char> {
    padded(n, w) + "    "@ + text + (if mark { " <-"@ } else { ""@ }) + "\n"@
}

/// The report of a runtime error at line `pos`: the failing line marked,
/// with one line of context on each side, then the message.
pub open spec fn report_spec(lines: Seq<Seq<char>>, msg: Seq<char>, pos: nat) -> Seq<char> {
    let w = dec(lines.len()).len();
    let body = if pos < lines.len() {
        (if pos > 0 { report_line(pos, w, lines[pos - 1 as int], false) } else { Seq::empty() })
            + report_line(pos + 1, w, lines[pos as int], true) + (if pos + 1 < lines.len() {
            report_line(pos + 2, w, lines[pos + 1 as int], false)
        } else {
            Seq::empty()
        }) + "\n"@ + "message: "@ + msg + "\n"@
    } else {
        Seq::empty()
    };
    "Runtime Error:\n\n"@ + body + "\n"@
}

impl Source {
    /// The text of each line.
    pub open spec fn lines(&self) -> Seq<Seq<char>> {
        self.0@.map_values(|s: String| s@)
    }

    /// Width of the line-number column: the digits of the line count.
    pub fn whitespace(&self) -> (r: usize)
        ensures
            r == dec(self.0@.len() as nat).len(),
    {
        radix_digits(self.0.len() as u128, 10).len()
    }

    fn push_line(&self, v: &mut Vec<char>, n: usize, w: usize, i: usize, mark: bool)
        requires
            i < self.0@.len(),
            w == dec(self.0@.len() as nat).len(),
        ensures
            final(v)@ == old(v)@ + report_line(n as nat, w as nat, self.lines()[i as int], mark),
    {
        let d = radix_digits(n as u128, 10);
        let mut k: usize = d.len();
        let ghost start = v@;
        while k < w
            invariant
                d.len() <= k,
                k == d.len() || k <= w,
                d@ == dec(n as nat),
                v@ == start + Seq::new((k - d.len()) as nat, |j: int| ' '),
            decreases w - k,
        {
            v.push(' ');
            k += 1;
            proof {
                assert(v@ =~= start + Seq::new((k - d.len()) as nat, |j: int| ' '));
            }
        }
        proof {
            assert(Seq::new((k - d.len()) as nat, |j: int| ' ') =~= Seq::new(
                if dec(n as nat).len() < w { (w - dec(n as nat).len()) as nat } else { 0 },
                |j: int| ' ',
            ));
        }
        extend_chars(v, d.as_slice());
        extend_str(v, "    ");
        let text = chars_of(self.0[i].as_str());
        extend_chars(v, text.as_slice());
        if mark {
            extend_str(v, " <-");
        }
        extend_str(v, "\n");
        proof {
            reveal_strlit("");
            assert(self.lines()[i as int] == self.0@[i as int]@);
            let line = report_line(n as nat, w as nat, self.lines()[i as int], mark);
            assert(v@ =~= old(v)@ + line);
        }
    }

    /// The report shown when the instruction on line `pos` fails.
    pub fn handle_err(&self, err: &RtError, pos: usize) -> (r: String)
        ensures
            r@ == report_spec(self.lines(), message_spec(*err), pos as nat),
    {
        let w = self.whitespace();
        let mut v: Vec<char> = Vec::new();
        extend_str(&mut v, "Runtime Error:\n\n");
        let ghost head = v@;
        if pos < self.0.len() {
            if pos > 0 {
                self.push_line(&mut v, pos, w, pos - 1, false);
            }
            self.push_line(&mut v, pos + 1, w, pos, true);
            if pos + 1 < self.0.len() {
                self.push_line(&mut v, pos + 2, w, pos + 1, false);
            }
            extend_str(&mut v, "\n");
            extend_str(&mut v, "message: ");
            let m = err.message();
            let mc = chars_of(m.as_str());
            extend_chars(&mut v, mc.as_slice());
            extend_str(&mut v, "\n");
        }
        extend_str(&mut v, "\n");
        proof {
            assert(v@ =~= report_spec(self.lines(), message_spec(*err), pos as nat));
        }
        string_from_chars(v.as_slice())
    }
}

/// The counter after one more instruction, held at its bound.
pub open spec fn counted(c: u64) -> u64 {
    if c < u64::MAX {
        (c + 1) as u64
    } else {
        c
    }
}

/// What the instruction `t` did on `old` with result `res`, leaving `mid`,
/// gives the status `r` and the context `new` after the step: an error is
/// passed on; on success the counter stays where the instruction put it if
/// it raised the override flag, else advances by one; advancing past the
/// largest address is an error.
pub open spec fn after_instruction(mid: Context, res: RtResult<()>, new: Context, r: Status) -> bool {
    match res {
        Err(e) => r == Status::Error(e) && new == mid,
        Ok(_) => if !mid.flow_override_reg && mid.mar == usize::MAX {
            r == Status::Error(RtError::InvalidProgAddr(usize::MAX)) && new == mid
        } else {
            r is Continue && advanced(mid, new)
        },
    }
}

/// One step of the executor: a finished program stays complete; otherwise
/// the instruction at the program counter is fetched, an address without
/// one or an id the set does not know is an error, and the instruction is
/// run.
pub open spec fn step_post<T: InstSet>(old: Executor, new: Executor, r: Status) -> bool {
    &&& new.prog == old.prog
    &&& new.source == old.source
    &&& new.debug_info == old.debug_info
    &&& if old.finished() {
        r is Complete && new == old
    } else {
        let mar = old.ctx.mar;
        &&& new.count == counted(old.count)
        &&& if !old.prog@.contains_key(mar) {
            r == Status::Error(RtError::InvalidProgAddr(mar)) && new.ctx == old.ctx
        } else if forall|t: T| #[trigger] t.spec_id() != old.prog@[mar].id {
            r == Status::Error(RtError::InvalidInstId(old.prog@[mar].id)) && new.ctx == old.ctx
        } else {
            exists|t: T, mid: Context, res: RtResult<()>|
                t.spec_id() == old.prog@[mar].id && #[trigger] t.exec_post(old.ctx, mid, old.prog@[mar].op, res)
                    && after_instruction(mid, res, new.ctx, r)
        }
    }
}

/// `states` and `results` are a run: each state steps to the next with the
/// result at its index, and every result but the last is `Continue`.
pub open spec fn run_of<T: InstSet>(states: Seq<Executor>, results: Seq<Status>) -> bool {
    &&& states.len() == results.len() + 1
    &&& forall|k: int| 0 <= k < results.len() ==> step_post::<T>(states[k], #[trigger] states[k + 1], results[k])
    &&& forall|k: int| 0 <= k < results.len() - 1 ==> #[trigger] results[k] is Continue
}

/// `fin` is `last` with the report of `e` appended to its output.
pub open spec fn reported(last: Executor, fin: Executor, e: RtError) -> bool {
    &&& fin.prog == last.prog
    &&& fin.source == last.source
    &&& fin.debug_info == last.debug_info
    &&& fin.count == last.count
    &&& fin.ctx.acc == last.ctx.acc && fin.ctx.ix == last.ctx.ix && fin.ctx.ret == last.ctx.ret
    &&& fin.ctx.gprs@ == last.ctx.gprs@ && fin.ctx.mem@ == last.ctx.mem@
    &&& fin.ctx.cmp == last.ctx.cmp && fin.ctx.mar == last.ctx.mar && fin.ctx.end == last.ctx.end
    &&& fin.ctx.flow_override_reg == last.ctx.flow_override_reg
    &&& fin.ctx.io.input == last.ctx.io.input && fin.ctx.io.read_pos == last.ctx.io.read_pos
    &&& fin.ctx.io.output@ == last.ctx.io.output@ + vstd::utf8::encode_utf8(
        report_spec(last.source.lines(), message_spec(e), last.ctx.mar as nat),
    )
}

/// How a run ends: complete; or at an error, which is reported; or with the
/// instruction count at its bound after steps that all continued.
pub open spec fn run_end<T: InstSet>(states: Seq<Executor>, results: Seq<Status>, fin: Executor) -> bool {
    ||| results.len() > 0 && results.last() is Complete && fin == states.last()
    ||| results.len() > 0 && results.last() is Error && reported(states.last(), fin, results.last()->Error_0)
    ||| (results.len() == 0 || results.last() is Continue) && states.last().count == u64::MAX && fin == states.last()
}

/// Runs a program, one instruction at a time.
#[derive(Debug)]
pub struct Executor {
    pub debug_info: DebugInfo,
    pub source: Source,
    pub prog: BTreeMap<usize, ExecInst>,
    pub ctx: Context,
    /// Number of instructions run so far.
    pub count: u64,
}

impl Executor {
    /// Number of instructions run so far.
    pub open spec fn executed(&self) -> u64 {
        self.count
    }

    /// The program has nothing more to run.
    pub open spec fn finished(&self) -> bool {
        self.ctx.mar == self.prog@.len() || self.ctx.end
    }

    pub fn new(source: Source, prog: BTreeMap<usize, ExecInst>, ctx: Context, debug_info: DebugInfo) -> (r: Executor)
        ensures
            r.source == source,
            r.prog == prog,
            r.ctx == ctx,
            r.debug_info == debug_info,
            r.executed() == 0,
    {
        Executor { debug_info, source, prog, ctx, count: 0 }
    }

    /// Runs the instruction at the program counter.
    ///
    /// When the counter has reached the end of the program or `END` has run,
    /// the program is complete and nothing changes. Otherwise the instruction
    /// is fetched and run; if it succeeds, the counter stays where the
    /// instruction put it when the instruction raised the override flag, and
    /// advances by one otherwise.
    pub fn step<T: InstSet>(&mut self) -> (r: Status)
        ensures
            step_post::<T>(*old(self), *final(self), r),
            r is Continue ==> exists|mid: Context| #[trigger] advanced(mid, final(self).ctx),
    {
        if self.ctx.mar == self.prog.len() || self.ctx.end {
            return Status::Complete;
        }
        if self.count < u64::MAX {
            self.count = self.count + 1;
        }
        let inst = match self.prog.get(&self.ctx.mar) {
            Some(inst) => inst,
            None => return Status::Error(RtError::InvalidProgAddr(self.ctx.mar)),
        };
        let set = match T::from_id(inst.id) {
            Some(set) => set,
            None => return Status::Error(RtError::InvalidInstId(inst.id)),
        };
        proof {
            assert(!forall|t: T| #[trigger] t.spec_id() != old(self).prog@[old(self).ctx.mar].id) by {
                assert(set.spec_id() == old(self).prog@[old(self).ctx.mar].id);
            }
        }
        let ghost before = self.ctx;
        assert(before == old(self).ctx);
        assert(inst.op == old(self).prog@[old(self).ctx.mar].op);
        let res = set.exec(&mut self.ctx, &inst.op);
        assert(set.exec_post(before, self.ctx, inst.op, res));
        let ghost mid = self.ctx;
        let ghost gres = res;
        let r = match res {
            Ok(()) => {
                let at = self.ctx.mar;
                if finish_instruction(&mut self.ctx) {
                    assert(advanced(mid, self.ctx));
                    assert(mid.flow_override_reg || mid.mar < usize::MAX);
                    Status::Continue
                } else {
                    assert(self.ctx == mid);
                    Status::Error(RtError::InvalidProgAddr(at))
                }
            },
            Err(e) => {
                assert(gres == Err::<(), RtError>(e));
                Status::Error(e)
            },
        };
        proof {
            assert(after_instruction(mid, gres, self.ctx, r));
            assert(set.exec_post(old(self).ctx, mid, old(self).prog@[old(self).ctx.mar].op, gres));
        }
        r
    }

    /// Runs the program step by step until it completes or an instruction
    /// fails; a failure is reported on the output, with the failing source
    /// line. Running stops too once the instruction count can grow no
    /// further.
    pub fn exec<T: InstSet>(&mut self)
        ensures
            exists|states: Seq<Executor>, results: Seq<Status>|
                #[trigger] run_of::<T>(states, results) && states[0] == *old(self) && run_end::<T>(
                    states,
                    results,
                    *final(self),
                ),
    {
        let ghost mut states: Seq<Executor> = seq![*self];
        let ghost mut results: Seq<Status> = Seq::empty();
        while self.count < u64::MAX
            invariant
                run_of::<T>(states, results),
                states[0] == *old(self),
                states.last() == *self,
                forall|k: int| 0 <= k < results.len() ==> #[trigger] results[k] is Continue,
            decreases u64::MAX - self.count,
        {
            let ghost before = *self;
            let r = self.step::<T>();
            proof {
                let s1 = states.push(*self);
                let r1 = results.push(r);
                assert forall|k: int| 0 <= k < r1.len() implies step_post::<T>(s1[k], #[trigger] s1[k + 1], r1[k]) by {
                    if k < results.len() {
                        assert(s1[k] == states[k] && s1[k + 1] == states[k + 1] && r1[k] == results[k]);
                    }
                }
                assert forall|k: int| 0 <= k < r1.len() - 1 implies #[trigger] r1[k] is Continue by {
                    assert(r1[k] == results[k]);
                }
                states = s1;
                results = r1;
            }
            proof {
                assert(states.last() == *self);
                assert(results.last() == r);
                assert(states[0] == *old(self));
            }
            match r {
                Status::Complete => {
                    proof {
                        assert(run_end::<T>(states, results, *self));
                        assert(run_of::<T>(states, results));
                    }
                    return;
                },
                Status::Continue => {
                    proof {
                        assert forall|k: int| 0 <= k < results.len() implies #[trigger] results[k] is Continue by {}
                        assert(before.count < u64::MAX);
                    }
                },
                Status::Error(e) => {
                    let ghost last = *self;
                    let report = self.source.handle_err(&e, self.ctx.mar);
                    self.ctx.io.write_bytes(report.as_str().as_bytes());
                    proof {
                        assert(results.last()->Error_0 == e);
                        assert(reported(last, *self, e));
                        assert(run_end::<T>(states, results, *self));
                        assert(run_of::<T>(states, results));
                    }
                    return;
                },
            }
        }
    }
}

/// The program listing over addresses below `n`: each instruction's
/// address right-aligned in six columns, a colon, and its operand.
pub open spec fn listing(prog: Map<usize, ExecInst>, n: nat) -> Seq<char>
    decreases n,
{
    if n == 0 {
        Seq::empty()
    } else {
        let a = (n - 1) as nat;
        listing(prog, a) + if a <= usize::MAX && prog.contains_key(a as usize) {
            padded(a, 6) + ": "@ + op_text(prog[a as usize].op) + "\n"@
        } else {
            Seq::empty()
        }
    }
}

impl Executor {
    /// The program as text: `Executor {`, a line for each address from 0
    /// up to the program's length that holds an instruction, and `}`.
    pub fn display(&self) -> (r: String)
        ensures
            r@ == "Executor {"@ + listing(self.prog@, self.prog@.len()) + "}"@,
    {
        let mut v: Vec<char> = Vec::new();
        extend_str(&mut v, "Executor {");
        let n = self.prog.len();
        let mut a: usize = 0;
        while a < n
            invariant
                a <= n == self.prog@.len(),
                v@ == "Executor {"@ + listing(self.prog@, a as nat),
            decreases n - a,
        {
            match self.prog.get(&a) {
                Some(inst) => {
                    let d = radix_digits(a as u128, 10);
                    let mut k: usize = d.len();
                    let ghost start = v@;
                    while k < 6
                        invariant
                            d.len() <= k,
                            k == d.len() || k <= 6,
                            d@ == dec(a as nat),
                            v@ == start + Seq::new((k - d.len()) as nat, |j: int| ' '),
                        decreases 6 - k,
                    {
                        v.push(' ');
                        k += 1;
                        proof {
                            assert(v@ =~= start + Seq::new((k - d.len()) as nat, |j: int| ' '));
                        }
                    }
                    proof {
                        assert(Seq::new((k - d.len()) as nat, |j: int| ' ') =~= Seq::new(
                            if dec(a as nat).len() < 6 { (6 - dec(a as nat).len()) as nat } else { 0 },
                            |j: int| ' ',
                        ));
                    }
                    extend_chars(&mut v, d.as_slice());
                    extend_str(&mut v, ": ");
                    let t = inst.op.render();
                    extend_chars(&mut v, t.as_slice());
                    extend_str(&mut v, "\n");
                    proof {
                        assert(v@ =~= "Executor {"@ + listing(self.prog@, (a + 1) as nat));
                    }
                },
                None => {
                    proof {
                        assert(v@ =~= "Executor {"@ + listing(self.prog@, (a + 1) as nat));
                    }
                },
            }
            a += 1;
        }
        extend_str(&mut v, "}");
        string_from_chars(v.as_slice())
    }
}

/// The program listing with mnemonics over addresses below `n`: each
/// instruction's address right-aligned in six columns, a colon, the
/// mnemonic of `insts[a]`, a space and its operand, on a line of its own.
pub open spec fn named_listing<T: InstSet>(prog: Map<usize, ExecInst>, insts: Seq<T>, n: nat) -> Seq<char>
    decreases n,
{
    if n == 0 {
        Seq::empty()
    } else {
        let a = (n - 1) as nat;
        named_listing(prog, insts, a) + if a <= usize::MAX && prog.contains_key(a as usize) {
            padded(a, 6) + ": "@ + insts[a as int].spec_name() + " "@ + op_text(prog[a as usize].op) + "\n"@
        } else {
            Seq::empty()
        }
    }
}

/// `insts[a]` is an instruction of `T` with the id stored at each address
/// `a` below `n`.
pub open spec fn ids_match<T: InstSet>(prog: Map<usize, ExecInst>, insts: Seq<T>, n: nat) -> bool {
    &&& insts.len() == n
    &&& forall|a: int|
        0 <= a < n && a <= usize::MAX && #[trigger] prog.contains_key(a as usize) ==> insts[a].spec_id()
            == prog[a as usize].id
}

fn pad_to_six(v: &mut Vec<char>, a: usize)
    ensures
        final(v)@ == old(v)@ + padded(a as nat, 6),
{
    let d = radix_digits(a as u128, 10);
    let mut k: usize = d.len();
    let ghost start = v@;
    while k < 6
        invariant
            d.len() <= k,
            k == d.len() || k <= 6,
            d@ == dec(a as nat),
            v@ == start + Seq::new((k - d.len()) as nat, |j: int| ' '),
        decreases 6 - k,
    {
        v.push(' ');
        k += 1;
        proof {
            assert(v@ =~= start + Seq::new((k - d.len()) as nat, |j: int| ' '));
        }
    }
    proof {
        assert(Seq::new((k - d.len()) as nat, |j: int| ' ') =~= Seq::new(
            if dec(a as nat).len() < 6 { (6 - dec(a as nat).len()) as nat } else { 0 },
            |j: int| ' ',
        ));
    }
    extend_chars(v, d.as_slice());
}

impl Executor {
    /// The program as text with mnemonics: `Executor {`, a line for each
    /// address from 0 up to the program's length that holds an instruction,
    /// and `}`. An id the instruction set does not know is returned as the
    /// error.
    pub fn display_with_opcodes<T: InstSet>(&self) -> (r: Result<String, u64>)
        ensures
            r is Ok ==> exists|insts: Seq<T>|
                ids_match(self.prog@, insts, self.prog@.len()) && r->Ok_0@ == "Executor {\n"@
                    + #[trigger] named_listing(self.prog@, insts, self.prog@.len()) + "}"@,
            r is Err ==> exists|a: usize| #[trigger] self.prog@.contains_key(a) && self.prog@[a].id == r->Err_0,
    {
        let mut v: Vec<char> = Vec::new();
        extend_str(&mut v, "Executor {\n");
        let n = self.prog.len();
        let mut a: usize = 0;
        let ghost mut names: Seq<T> = Seq::empty();
        while a < n
            invariant
                a <= n == self.prog@.len(),
                ids_match(self.prog@, names, a as nat),
                v@ == "Executor {\n"@ + named_listing(self.prog@, names, a as nat),
            decreases n - a,
        {
            let ghost before = names;
            match self.prog.get(&a) {
                Some(inst) => {
                    let t = match T::from_id(inst.id) {
                        Some(t) => t,
                        None => return Err(inst.id),
                    };
                    let name = t.name();
                    pad_to_six(&mut v, a);
                    extend_str(&mut v, ": ");
                    extend_str(&mut v, name.as_str());
                    extend_str(&mut v, " ");
                    let text = inst.op.render();
                    extend_chars(&mut v, text.as_slice());
                    extend_str(&mut v, "\n");
                    proof {
                        names = before.push(t);
                    }
                },
                None => {
                    proof {
                        names = before.push(arbitrary());
                    }
                },
            }
            proof {
                assert(named_listing(self.prog@, names, a as nat) == named_listing(self.prog@, before, a as nat)) by {
                    lemma_named_listing_prefix(self.prog@, before, names, a as nat);
                }
                assert(v@ =~= "Executor {\n"@ + named_listing(self.prog@, names, (a + 1) as nat));
                assert forall|b: int|
                    0 <= b < a + 1 && b <= usize::MAX && #[trigger] self.prog@.contains_key(b as usize) implies names[b].spec_id()
                        == self.prog@[b as usize].id by {
                    if b < a {
                        assert(names[b] == before[b]);
                    }
                }
            }
            a += 1;
        }
        extend_str(&mut v, "}");
        Ok(string_from_chars(v.as_slice()))
    }
}

proof fn lemma_named_listing_prefix<T: InstSet>(prog: Map<usize, ExecInst>, n1: Seq<T>, n2: Seq<T>, m: nat)
    requires
        m <= n1.len(),
        m <= n2.len(),
        forall|j: int| 0 <= j < m ==> n1[j] == n2[j],
    ensures
        named_listing(prog, n1, m) == named_listing(prog, n2, m),
    decreases m,
{
    if m > 0 {
        lemma_named_listing_prefix(prog, n1, n2, (m - 1) as nat);
    }
}

} // verus!
