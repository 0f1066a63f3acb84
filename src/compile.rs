//! Entry points: source text to an executor, and to a compiled program that
//! can be stored and later turned into an executor.

use std::collections::BTreeMap;
use vstd::prelude::*;

use crate::context::{Context, Io};
use crate::exec::{DebugInfo, ExecInst, Executor, Source};
use crate::inst::Op;
use crate::inst_set::InstSet;
use crate::lexer::ErrorMap;
use crate::memory::Memory;
use crate::inst_set::InstIr;
use crate::lexer::{lexed, ErrorKind, Span, Spanned};
use crate::parser::{parse_fails, parse_ok, MemIr, Parser};

verus! {

broadcast use vstd::laws_cmp::group_laws_cmp, vstd::std_specs::btree::group_btree_axioms;

/// A linked program: instructions at addresses `0..n`, none of them holding
/// an unresolved label.
pub open spec fn well_linked(prog: Map<usize, ExecInst>) -> bool {
    &&& forall|a: usize| prog.contains_key(a) <==> (a as int) < prog.len()
    &&& forall|a: usize| #[trigger] prog.contains_key(a) ==> !prog[a].op.has_fail()
}

/// `src` lexes into `lines` with the errors `errs`.
pub open spec fn lexed_lines(src: Seq<char>, lines: Seq<Vec<Spanned>>, errs: Seq<(Span, ErrorKind)>) -> bool {
    lexed(src, lines.map_values(|l: Vec<Spanned>| l@), errs)
}

/// `src` lexes, parses and links to the instructions `insts` and the
/// memory cells `mems`, as `Parser::parse` describes.
pub open spec fn source_links<I: InstSet>(src: Seq<char>, insts: Seq<InstIr<I>>, mems: Seq<MemIr>) -> bool {
    exists|lines: Seq<Vec<Spanned>>, errs: Seq<(Span, ErrorKind)>|
        #[trigger] lexed_lines(src, lines, errs) && parse_ok::<I>(lines, errs.len() == 0, insts, mems)
}

/// `src` fails to parse or link with the errors `map`, as `Parser::parse`
/// describes.
pub open spec fn source_fails<I: InstSet>(src: Seq<char>, map: Seq<(Span, ErrorKind)>) -> bool {
    exists|lines: Seq<Vec<Spanned>>, errs: Seq<(Span, ErrorKind)>|
        #[trigger] lexed_lines(src, lines, errs) && parse_fails::<I>(lines, errs, map)
}

/// Some instruction of the set has this id.
pub open spec fn id_known<I: InstSet>(id: u64) -> bool {
    exists|t: I| #[trigger] t.spec_id() == id
}

/// The runtime instructions are the linked ones, in order, by id and
/// operand.
pub open spec fn execs_of<I: InstSet>(insts: Seq<InstIr<I>>, out: Seq<ExecInst>) -> bool {
    &&& out.len() == insts.len()
    &&& forall|i: int| 0 <= i < out.len() ==> (#[trigger] out[i]).id == insts[i].inst.id && out[i].op == insts[i].inst.op
}

/// A compiled instruction: the linked instruction's id and operand, and
/// the mnemonic of an instruction of the set with that id.
pub open spec fn compiled_entry<I: InstSet>(c: CompiledInst, inst: InstIr<I>) -> bool {
    &&& c.id == inst.inst.id
    &&& c.op == inst.inst.op
    &&& exists|t: I| #[trigger] t.spec_id() == c.id && c.inst@ == t.spec_name()
}

/// The compiled program holds the linked instructions at addresses `0..n`,
/// in order.
pub open spec fn compiled_is<I: InstSet>(prog: Seq<(usize, CompiledInst)>, insts: Seq<InstIr<I>>) -> bool {
    &&& prog.len() == insts.len()
    &&& forall|k: int| 0 <= k < prog.len() ==> (#[trigger] prog[k]).0 == k && compiled_entry::<I>(prog[k].1, insts[k])
}

/// The program holds the linked instructions at addresses `0..n`.
pub open spec fn program_is<I: InstSet>(prog: Map<usize, ExecInst>, insts: Seq<InstIr<I>>) -> bool {
    &&& forall|a: usize| prog.contains_key(a) <==> (a as int) < insts.len()
    &&& forall|a: usize|
        #[trigger] prog.contains_key(a) ==> prog[a].id == insts[a as int].inst.id && prog[a].op == insts[a as int].inst.op
}

/// The memory holds exactly the linked cells.
pub open spec fn memory_is(mem: Map<usize, usize>, mems: Seq<MemIr>) -> bool {
    holds_cells(mem, mems.map_values(|m: MemIr| (m.addr, m.data)))
}

/// The executable parts of a parsed program.
pub type Program = (BTreeMap<usize, ExecInst>, BTreeMap<usize, usize>, Source, DebugInfo);

/// Parses and links source text: the instructions in address order, the
/// memory cells, and the debug information.
fn parse_dense<T: InstSet>(src: &str) -> (r: Result<(Vec<ExecInst>, Vec<(usize, usize)>, DebugInfo), ErrorMap>)
    ensures
        r is Ok ==> forall|i: int| 0 <= i < r->Ok_0.0@.len() ==> !(#[trigger] r->Ok_0.0@[i]).op.has_fail(),
        r is Ok ==> distinct_cells(r->Ok_0.1@),
        r is Ok ==> forall|i: int| 0 <= i < r->Ok_0.0@.len() ==> id_known::<T>((#[trigger] r->Ok_0.0@[i]).id),
        r is Ok ==> exists|insts: Seq<InstIr<T>>, mems: Seq<MemIr>|
            #[trigger] source_links::<T>(src@, insts, mems) && execs_of(insts, r->Ok_0.0@) && r->Ok_0.1@
                == mems.map_values(|m: MemIr| (m.addr, m.data)),
        r is Err ==> r->Err_0.entries@.len() > 0 && source_fails::<T>(src@, r->Err_0.entries@),
{
    let parser: Parser<T> = Parser::new(src);
    let ghost pl = parser.lines@;
    let ghost pe = parser.err.entries@;
    let (insts, mems, debug_info) = match parser.parse() {
        Ok(p) => p,
        Err(e) => {
            proof {
                assert(lexed_lines(src@, pl, pe));
            }
            return Err(e);
        },
    };
    let ghost all = insts@;
    let ghost allm = mems@;
    proof {
        assert(lexed_lines(src@, pl, pe));
        assert(source_links::<T>(src@, all, allm));
    }
    let n = insts.len();
    let mut insts = insts;
    let mut rev: Vec<ExecInst> = Vec::new();
    proof {
        let (prog, mem, bs, be) = choose|prog: Seq<crate::parser::Inst<T>>, mem: Seq<crate::parser::Mem>, s: int, e: int|
            #[trigger] crate::parser::read_parts(pl, prog, mem, s, e) && pe.len() == 0 && crate::parser::lines_accepted::<T>(pl, s, e)
                && crate::parser::linked_program(prog, mem, all, allm);
        assert forall|i: int| 0 <= i < all.len() implies !(#[trigger] all[i]).inst.op.has_fail() by {}
        assert forall|i: int| 0 <= i < all.len() implies (#[trigger] all[i]).inst.inst.spec_id() == all[i].inst.id by {}
        assert forall|i: int, j: int| 0 <= i < j < allm.len() implies (#[trigger] allm[i]).addr != (#[trigger] allm[j]).addr by {}
    }
    while insts.len() > 0
        invariant
            insts@.len() + rev@.len() == n,
            n == all.len(),
            insts@ == all.subrange(0, insts@.len() as int),
            forall|i: int| 0 <= i < all.len() ==> !(#[trigger] all[i]).inst.op.has_fail(),
            forall|i: int| 0 <= i < all.len() ==> (#[trigger] all[i]).inst.inst.spec_id() == all[i].inst.id,
            forall|j: int| 0 <= j < rev@.len() ==> (#[trigger] rev@[j]).id == all[n - 1 - j].inst.id && rev@[j].op == all[n - 1 - j].inst.op,
        decreases insts.len(),
    {
        let ir = insts.pop().unwrap();
        rev.push(ir.inst.to_exec_inst());
        proof {
            assert(insts@ =~= all.subrange(0, insts@.len() as int));
        }
    }
    let mut out: Vec<ExecInst> = Vec::new();
    while rev.len() > 0
        invariant
            rev@.len() + out@.len() == n,
            n == all.len(),
            forall|i: int| 0 <= i < all.len() ==> !(#[trigger] all[i]).inst.op.has_fail(),
            forall|i: int| 0 <= i < all.len() ==> (#[trigger] all[i]).inst.inst.spec_id() == all[i].inst.id,
            forall|j: int| 0 <= j < rev@.len() ==> (#[trigger] rev@[j]).id == all[n - 1 - j].inst.id && rev@[j].op == all[n - 1 - j].inst.op,
            forall|i: int| 0 <= i < out@.len() ==> (#[trigger] out@[i]).id == all[i].inst.id && out@[i].op == all[i].inst.op,
        decreases rev.len(),
    {
        let inst = rev.pop().unwrap();
        out.push(inst);
    }
    let mut cells: Vec<(usize, usize)> = Vec::new();
    let mut k: usize = 0;
    while k < mems.len()
        invariant
            k <= mems@.len(),
            mems@ == allm,
            cells@ == allm.subrange(0, k as int).map_values(|m: MemIr| (m.addr, m.data)),
            forall|i: int, j: int| 0 <= i < j < allm.len() ==> (#[trigger] allm[i]).addr != (#[trigger] allm[j]).addr,
        decreases mems.len() - k,
    {
        cells.push((mems[k].addr, mems[k].data));
        k += 1;
        proof {
            assert(cells@ =~= allm.subrange(0, k as int).map_values(|m: MemIr| (m.addr, m.data)));
        }
    }
    proof {
        assert(allm.subrange(0, k as int) =~= allm);
        assert forall|i: int, j: int| 0 <= i < j < cells@.len() implies (#[trigger] cells@[i]).0 != (#[trigger] cells@[j]).0 by {
            assert(cells@[i].0 == allm[i].addr && cells@[j].0 == allm[j].addr);
        }
        assert(execs_of(all, out@));
        assert forall|i: int| 0 <= i < out@.len() implies id_known::<T>((#[trigger] out@[i]).id) by {
            assert(all[i].inst.inst.spec_id() == out@[i].id);
        }
    }
    Ok((out, cells, debug_info))
}

/// Places instructions at addresses `0..n`.
fn program_map(insts: Vec<ExecInst>) -> (r: BTreeMap<usize, ExecInst>)
    ensures
        forall|a: usize| r@.contains_key(a) <==> (a as int) < insts@.len(),
        r@.len() == insts@.len(),
        forall|a: usize| #[trigger] r@.contains_key(a) ==> r@[a] == insts@[a as int],
{
    let n = insts.len();
    let ghost all = insts@;
    let mut insts = insts;
    let mut rev: Vec<ExecInst> = Vec::new();
    while insts.len() > 0
        invariant
            insts@.len() + rev@.len() == n,
            n == all.len(),
            forall|i: int| 0 <= i < insts@.len() ==> #[trigger] insts@[i] == all[i],
            forall|j: int| 0 <= j < rev@.len() ==> #[trigger] rev@[j] == all[n - 1 - j],
        decreases insts.len(),
    {
        let inst = insts.pop().unwrap();
        rev.push(inst);
    }
    let mut prog: BTreeMap<usize, ExecInst> = BTreeMap::new();
    let mut a: usize = 0;
    while rev.len() > 0
        invariant
            a + rev@.len() == n,
            n == all.len(),
            forall|j: int| 0 <= j < rev@.len() ==> #[trigger] rev@[j] == all[n - 1 - j],
            forall|k: usize| prog@.contains_key(k) <==> k < a,
            prog@.len() == a,
            forall|k: usize| #[trigger] prog@.contains_key(k) ==> prog@[k] == all[k as int],
        decreases rev.len(),
    {
        let inst = rev.pop().unwrap();
        prog.insert(a, inst);
        proof {
            assert(prog@.dom() =~= Set::new(|k: usize| k < a + 1));
        }
        a += 1;
    }
    prog
}

/// No two cells share an address.
pub open spec fn distinct_cells(cells: Seq<(usize, usize)>) -> bool {
    forall|i: int, j: int| 0 <= i < j < cells.len() ==> (#[trigger] cells[i]).0 != (#[trigger] cells[j]).0
}

/// Memory holds exactly the given cells.
pub open spec fn holds_cells(mem: Map<usize, usize>, cells: Seq<(usize, usize)>) -> bool {
    &&& forall|k: int| 0 <= k < cells.len() ==> mem.contains_key(#[trigger] cells[k].0) && mem[cells[k].0] == cells[k].1
    &&& forall|a: usize| mem.contains_key(a) ==> exists|k: int| 0 <= k < cells.len() && (#[trigger] cells[k]).0 == a
}

/// Memory holding the given cells.
fn memory_map(cells: &Vec<(usize, usize)>) -> (r: BTreeMap<usize, usize>)
    requires
        distinct_cells(cells@),
    ensures
        holds_cells(r@, cells@),
{
    let mut mem: BTreeMap<usize, usize> = BTreeMap::new();
    let mut k: usize = 0;
    while k < cells.len()
        invariant
            k <= cells@.len(),
            distinct_cells(cells@),
            holds_cells(mem@, cells@.subrange(0, k as int)),
        decreases cells.len() - k,
    {
        let ghost before = mem@;
        mem.insert(cells[k].0, cells[k].1);
        k += 1;
        proof {
            let sub = cells@.subrange(0, k as int);
            assert forall|j: int| 0 <= j < sub.len() implies mem@.contains_key(#[trigger] sub[j].0) && mem@[sub[j].0] == sub[j].1 by {
                if j < k - 1 {
                    assert(cells@.subrange(0, k - 1)[j] == sub[j]);
                    assert(sub[j].0 != cells@[k - 1].0);
                }
            }
            assert forall|a: usize| mem@.contains_key(a) implies exists|j: int| 0 <= j < sub.len() && (#[trigger] sub[j]).0 == a by {
                if a != cells@[k - 1].0 {
                    let j = choose|j: int| 0 <= j < k - 1 && (#[trigger] cells@.subrange(0, k - 1)[j]).0 == a;
                    assert(sub[j] == cells@.subrange(0, k - 1)[j]);
                } else {
                    assert(sub[k - 1].0 == a);
                }
            }
        }
    }
    proof {
        assert(cells@.subrange(0, k as int) =~= cells@);
    }
    mem
}

/// Parses and links source text with an instruction set.
pub fn parse<T: InstSet>(src: &str) -> (r: Result<Program, ErrorMap>)
    ensures
        r is Ok ==> well_linked(r->Ok_0.0@),
        r is Ok ==> r->Ok_0.2.lines() == crate::exec::kept_lines(src@),
        r is Ok ==> exists|insts: Seq<InstIr<T>>, mems: Seq<MemIr>|
            #[trigger] source_links::<T>(src@, insts, mems) && program_is(r->Ok_0.0@, insts) && memory_is(r->Ok_0.1@, mems),
        r is Err ==> r->Err_0.entries@.len() > 0 && source_fails::<T>(src@, r->Err_0.entries@),
{
    let (insts, cells, debug_info) = match parse_dense::<T>(src) {
        Ok(p) => p,
        Err(e) => return Err(e),
    };
    let ghost out = insts@;
    let ghost cv = cells@;
    let prog = program_map(insts);
    let mem = memory_map(&cells);
    proof {
        let (li, lm) = choose|li: Seq<InstIr<T>>, lm: Seq<MemIr>|
            #[trigger] source_links::<T>(src@, li, lm) && execs_of(li, out) && cv == lm.map_values(|m: MemIr| (m.addr, m.data));
        assert(program_is(prog@, li));
        assert(memory_is(mem@, lm));
    }
    Ok((prog, mem, Source::new(src), debug_info))
}

/// Parses source text into an executor with the given I/O.
pub fn jit<T: InstSet>(src: &str, io: Io) -> (r: Result<Executor, ErrorMap>)
    ensures
        r is Ok ==> well_linked(r->Ok_0.prog@) && r->Ok_0.ctx.mar == 0 && r->Ok_0.executed() == 0,
        r is Ok ==> exists|insts: Seq<InstIr<T>>, mems: Seq<MemIr>|
            #[trigger] source_links::<T>(src@, insts, mems) && program_is(r->Ok_0.prog@, insts) && memory_is(r->Ok_0.ctx.mem@, mems),
        r is Ok ==> r->Ok_0.ctx.io == io && crate::context::fresh(r->Ok_0.ctx),
        r is Ok ==> r->Ok_0.source.lines() == crate::exec::kept_lines(src@),
        r is Err ==> r->Err_0.entries@.len() > 0 && source_fails::<T>(src@, r->Err_0.entries@),
{
    match parse::<T>(src) {
        Ok((prog, mem, source, debug_info)) => Ok(
            Executor::new(source, prog, Context::with_io(Memory::new(mem), io), debug_info),
        ),
        Err(e) => Err(e),
    }
}

/// An instruction of a compiled program: its id, its mnemonic, its operand.
#[derive(Debug)]
pub struct CompiledInst {
    pub id: u64,
    pub inst: String,
    pub op: Op,
}

impl CompiledInst {
    pub fn new(id: u64, inst: String, op: Op) -> (r: CompiledInst)
        ensures
            r.id == id,
            r.inst == inst,
            r.op == op,
    {
        CompiledInst { id, inst, op }
    }
}

/// A compiled program, ready to be stored: instructions by address, in
/// increasing order.
#[derive(Debug)]
pub struct CompiledProg {
    pub prog: Vec<(usize, CompiledInst)>,
    pub mem: Memory,
    pub debug_info: Option<DebugInfo>,
}

/// Entry `k` is the last one at its address.
pub open spec fn last_at(c: Seq<(usize, CompiledInst)>, k: int) -> bool {
    forall|k2: int| k < k2 < c.len() ==> (#[trigger] c[k2]).0 != c[k].0
}

/// The executor's program holds, at each address of the compiled program,
/// the id and operand of the last compiled instruction at that address, and
/// nothing at other addresses.
pub open spec fn compiled_from(c: Seq<(usize, CompiledInst)>, prog: Map<usize, ExecInst>) -> bool {
    &&& forall|k: int| 0 <= k < c.len() ==> prog.contains_key(#[trigger] c[k].0)
    &&& forall|k: int| 0 <= k < c.len() && last_at(c, k) ==> prog[(#[trigger] c[k]).0].id == c[k].1.id
        && prog[c[k].0].op == c[k].1.op
    &&& forall|a: usize| prog.contains_key(a) ==> exists|k: int| 0 <= k < c.len() && #[trigger] c[k].0 == a
}

/// Addresses are strictly increasing.
pub open spec fn sorted_addrs(c: Seq<(usize, CompiledInst)>) -> bool {
    forall|i: int, j: int| 0 <= i < j < c.len() ==> (#[trigger] c[i]).0 < (#[trigger] c[j]).0
}

impl CompiledProg {
    pub fn new(prog: Vec<(usize, CompiledInst)>, mem: Memory, debug_info: Option<DebugInfo>) -> (r: CompiledProg)
        ensures
            r.prog == prog,
            r.mem == mem,
            r.debug_info == debug_info,
    {
        CompiledProg { prog, mem, debug_info }
    }

    /// An executor for the program, with the given I/O. Addresses, ids and
    /// operands are kept exactly.
    pub fn to_executor<T: InstSet>(self, io: Io) -> (r: Executor)
        ensures
            compiled_from(self.prog@, r.prog@),
            r.ctx.mem@ == self.mem@,
            r.ctx.io == io,
            crate::context::fresh(r.ctx),
            r.executed() == 0,
            self.debug_info is Some ==> r.debug_info == self.debug_info->Some_0,
            self.debug_info is None ==> r.debug_info.prog@.len() == 0 && r.debug_info.mem@.len() == 0
                && r.debug_info.inst_spans@.len() == 0,
    {
        let CompiledProg { prog: compiled, mem, debug_info } = self;
        let ghost all = compiled@;
        let mut compiled = compiled;
        let mut prog: BTreeMap<usize, ExecInst> = BTreeMap::new();
        while compiled.len() > 0
            invariant
                compiled@.len() <= all.len(),
                forall|k: int| 0 <= k < compiled@.len() ==> #[trigger] compiled@[k] == all[k],
                forall|k: int| compiled@.len() <= k < all.len() ==> prog@.contains_key(#[trigger] all[k].0),
                forall|k: int| compiled@.len() <= k < all.len() && last_at(all, k) ==> prog@[(#[trigger] all[k]).0].id
                    == all[k].1.id && prog@[all[k].0].op == all[k].1.op,
                forall|a: usize| prog@.contains_key(a) ==> exists|k: int| compiled@.len() <= k < all.len() && #[trigger] all[k].0 == a,
            decreases compiled.len(),
        {
            let (a, ci) = compiled.pop().unwrap();
            let ghost n = compiled@.len() as int;
            if !prog.contains_key(&a) {
                prog.insert(a, ExecInst::new(ci.id, ci.op));
                proof {
                    assert forall|k: int| n < k < all.len() implies (#[trigger] all[k]).0 != a by {
                        assert(prog@.contains_key(all[k].0) || true);
                    }
                }
            } else {
                proof {
                    let k2 = choose|k: int| n < k < all.len() && #[trigger] all[k].0 == a;
                    assert(!last_at(all, n));
                }
            }
            proof {
                assert forall|k: int| n <= k < all.len() && last_at(all, k) implies prog@[(#[trigger] all[k]).0].id
                    == all[k].1.id && prog@[all[k].0].op == all[k].1.op by {
                    if k != n && all[k].0 == a {
                        assert(all[k].0 != all[k].0 || k > n);
                    }
                }
                assert forall|b: usize| prog@.contains_key(b) implies exists|k: int| n <= k < all.len() && #[trigger] all[k].0 == b by {
                    if b == a {
                        assert(all[n].0 == b);
                    }
                }
            }
        }
        let debug_info = match debug_info {
            Some(d) => d,
            None => DebugInfo::new(),
        };
        Executor::new(Source::new(""), prog, Context::with_io(mem, io), debug_info)
    }
}

/// Parses source text into a compiled program; debug information is kept
/// when asked for.
pub fn compile<T: InstSet>(src: &str, debug: bool) -> (r: Result<CompiledProg, ErrorMap>)
    ensures
        r is Ok ==> sorted_addrs(r->Ok_0.prog@) && forall|k: int| 0 <= k < r->Ok_0.prog@.len() ==> (#[trigger] r->Ok_0.prog@[k]).0 == k
            && !r->Ok_0.prog@[k].1.op.has_fail(),
        r is Ok ==> (r->Ok_0.debug_info is Some <==> debug),
        r is Ok ==> exists|insts: Seq<InstIr<T>>, mems: Seq<MemIr>|
            #[trigger] source_links::<T>(src@, insts, mems) && compiled_is::<T>(r->Ok_0.prog@, insts) && memory_is(r->Ok_0.mem@, mems),
        r is Err ==> r->Err_0.entries@.len() > 0 && source_fails::<T>(src@, r->Err_0.entries@),
{
    let (insts, cells, debug_info) = match parse_dense::<T>(src) {
        Ok(p) => p,
        Err(e) => return Err(e),
    };
    let ghost out = insts@;
    let ghost cv = cells@;
    let ghost (li, lm) = choose|li: Seq<InstIr<T>>, lm: Seq<MemIr>|
        #[trigger] source_links::<T>(src@, li, lm) && execs_of(li, out) && cv == lm.map_values(|m: MemIr| (m.addr, m.data));
    let n = insts.len();
    let mut insts = insts;
    let mut rev: Vec<CompiledInst> = Vec::new();
    while insts.len() > 0
        invariant
            insts@.len() + rev@.len() == n,
            n == out.len(),
            execs_of(li, out),
            insts@ == out.subrange(0, insts@.len() as int),
            forall|i: int| 0 <= i < out.len() ==> id_known::<T>((#[trigger] out[i]).id),
            forall|i: int| 0 <= i < insts@.len() ==> !(#[trigger] insts@[i]).op.has_fail(),
            forall|j: int| 0 <= j < rev@.len() ==> !(#[trigger] rev@[j]).op.has_fail(),
            forall|j: int| 0 <= j < rev@.len() ==> #[trigger] compiled_entry::<T>(rev@[j], li[n - 1 - j]),
        decreases insts.len(),
    {
        let inst = insts.pop().unwrap();
        proof {
            assert(insts@ =~= out.subrange(0, insts@.len() as int));
        }
        let ghost k = insts@.len() as int;
        let ghost id = inst.id;
        let name = match T::from_id(inst.id) {
            Some(t) => {
                let name = t.name();
                proof {
                    assert(t.spec_id() == id && name@ == t.spec_name());
                }
                name
            },
            None => {
                proof {
                    assert(id_known::<T>(out[k].id));
                    let t = choose|t: T| #[trigger] t.spec_id() == out[k].id;
                    assert(false);
                }
                String::new()
            },
        };
        let c = CompiledInst::new(inst.id, name, inst.op);
        proof {
            assert(compiled_entry::<T>(c, li[k]));
        }
        rev.push(c);
        proof {
            assert(k == n - 1 - (rev@.len() - 1));
        }
    }
    let mut prog: Vec<(usize, CompiledInst)> = Vec::new();
    let mut a: usize = 0;
    while rev.len() > 0
        invariant
            a + rev@.len() == n,
            n == li.len(),
            prog@.len() == a,
            forall|j: int| 0 <= j < rev@.len() ==> !(#[trigger] rev@[j]).op.has_fail(),
            forall|k: int| 0 <= k < a ==> (#[trigger] prog@[k]).0 == k && !prog@[k].1.op.has_fail(),
            forall|j: int| 0 <= j < rev@.len() ==> #[trigger] compiled_entry::<T>(rev@[j], li[n - 1 - j]),
            forall|k: int| 0 <= k < a ==> #[trigger] compiled_entry::<T>(prog@[k].1, li[k]),
        decreases rev.len(),
    {
        let ghost j = rev@.len() - 1;
        proof {
            assert(compiled_entry::<T>(rev@[j], li[n - 1 - j]));
        }
        let inst = rev.pop().unwrap();
        prog.push((a, inst));
        a += 1;
    }
    let mem = Memory::new(memory_map(&cells));
    let debug_info = if debug {
        Some(debug_info)
    } else {
        None
    };
    proof {
        assert(compiled_is::<T>(prog@, li));
        assert(memory_is(mem@, lm));
    }
    Ok(CompiledProg::new(prog, mem, debug_info))
}

} // verus!
