//! The line parser: lines of tokens to instruction and memory records.

use std::marker::PhantomData;
use vstd::prelude::*;

use crate::exec::DebugInfo;
use crate::inst::Op;
use crate::inst_set::{InstIr, InstSet};
use crate::lexer::{
    add_first, lines, operand_token, token_op, ErrorKind, ErrorMap, LinearMemory, Span, Spanned, Token,
};
use crate::linker::{addrs_of, duplicate_defs, link_error_at, memory_linked, resolved_by, Linker};
use crate::text::upper_seq;

verus! {

/// The address part of a line: a bare number or a label.
#[derive(Debug)]
pub enum Addr {
    Bare(usize),
    Label(String),
}

/// The text of an address as written in the source.
pub open spec fn addr_text(a: Addr) -> Seq<char> {
    match a {
        Addr::Bare(n) => crate::text::radix_spec(n as nat, 10),
        Addr::Label(l) => l@,
    }
}

impl Addr {
    /// The address as written in the source, for debug information.
    pub fn as_dbg_string(&self) -> (r: String)
        ensures
            r@ == addr_text(*self),
    {
        match self {
            Addr::Label(label) => label.clone(),
            Addr::Bare(bare) => {
                let d = crate::text::radix_digits(*bare as u128, 10);
                crate::text::string_from_chars(d.as_slice())
            },
        }
    }
}

/// An instruction line before linking.
pub struct Inst<I> {
    pub addr: Option<Addr>,
    pub opcode: I,
    pub op: Op,
    /// Span of each operand, in order.
    pub op_spans: Vec<Span>,
    /// Span of the whole line.
    pub span: Span,
}

/// A memory cell before linking.
#[derive(Debug)]
pub struct Mem {
    pub addr: Addr,
    pub data: usize,
    /// Span of the line that declared the cell.
    pub span: Span,
}

impl Mem {
    pub fn new(addr: Addr, data: usize, span: Span) -> (r: Mem)
        ensures
            r.addr == addr,
            r.data == data,
            r.span == span,
    {
        Mem { addr, data, span }
    }
}

/// A linked memory cell.
#[derive(Debug, Clone, Copy, PartialEq, Eq)]
pub struct MemIr {
    pub addr: usize,
    pub data: usize,
}

/// An error at a span.
pub type ParseError = (Span, ErrorKind);

/// The span from the first to the last token of a non-empty line.
pub open spec fn line_span(ts: Seq<Spanned>) -> Span {
    Span { start: ts[0].0.start, end: ts.last().0.end }
}

/// Where the opcode and the operands of an instruction line start:
/// `n OPCODE ...`, `label: OPCODE ...` or `OPCODE ...`.
pub open spec fn inst_shape(ts: Seq<Spanned>) -> Option<(int, int)> {
    if ts.len() >= 2 && ts[0].1 is BareNumber && ts[1].1 is Text {
        Some((1, 2))
    } else if ts.len() >= 3 && ts[0].1 is Text && ts[1].1 is Colon && ts[2].1 is Text {
        Some((2, 3))
    } else if ts.len() >= 1 && ts[0].1 is Text {
        Some((0, 1))
    } else {
        None
    }
}

/// The tokens without the commas.
pub open spec fn no_commas(ts: Seq<Spanned>) -> Seq<Spanned>
    decreases ts.len(),
{
    if ts.len() == 0 {
        Seq::empty()
    } else if ts.last().1 is Comma {
        no_commas(ts.drop_last())
    } else {
        no_commas(ts.drop_last()).push(ts.last())
    }
}

/// The operand of a list of operand tokens: none, one, or a multi-operand.
pub open spec fn ops_op(toks: Seq<Spanned>, r: Op) -> bool {
    if toks.len() == 0 {
        r == Op::Null
    } else if toks.len() == 1 {
        token_op(toks[0].1, r)
    } else {
        r is MultiOp && r->MultiOp_0@.len() == toks.len() && forall|k: int|
            0 <= k < toks.len() ==> token_op(#[trigger] toks[k].1, r->MultiOp_0@[k])
    }
}

/// The first token from `from` on that may not stand among operands.
pub open spec fn first_bad_operand(ts: Seq<Spanned>, from: int) -> int
    decreases ts.len() - from,
{
    if from >= ts.len() {
        ts.len() as int
    } else if !operand_token(ts[from].1) {
        from
    } else {
        first_bad_operand(ts, from + 1)
    }
}

/// The address a line's first tokens give.
pub open spec fn addr_ok(ts: Seq<Spanned>, shape: (int, int), a: Option<Addr>) -> bool {
    if shape.0 == 1 {
        a == Some(Addr::Bare(ts[0].1->BareNumber_0))
    } else if shape.0 == 2 {
        a is Some && a->Some_0 is Label && a->Some_0->Label_0 == ts[0].1->Text_0
    } else {
        a is None
    }
}

/// Some instruction of the set has this mnemonic, in any letter case.
pub open spec fn opcode_known<I: InstSet>(text: Seq<char>) -> bool {
    exists|i: I| upper_seq(#[trigger] i.spec_name()) == upper_seq(text)
}

/// The line reads as an instruction: it has a shape, a known opcode, and
/// only tokens that may stand among operands after it.
pub open spec fn inst_line_accepted<I: InstSet>(line: Seq<Spanned>) -> bool {
    &&& line.len() > 0
    &&& inst_shape(line) is Some
    &&& opcode_known::<I>(line[inst_shape(line)->Some_0.0].1->Text_0@)
    &&& first_bad_operand(line, inst_shape(line)->Some_0.1) == line.len()
}

/// `inst` is what an instruction line reads as: its address, an opcode
/// whose mnemonic matches the opcode text, and the operands of the tokens
/// after it, each with its span.
pub open spec fn inst_of_line<I: InstSet>(line: Seq<Spanned>, inst: Inst<I>) -> bool {
    &&& line.len() > 0
    &&& inst_shape(line) is Some
    &&& {
        let (oi, ri) = inst_shape(line)->Some_0;
        let toks = no_commas(line.subrange(ri, line.len() as int));
        &&& first_bad_operand(line, ri) == line.len()
        &&& inst.span == line_span(line)
        &&& upper_seq(inst.opcode.spec_name()) == upper_seq(line[oi].1->Text_0@)
        &&& addr_ok(line, (oi, ri), inst.addr)
        &&& ops_op(toks, inst.op)
        &&& inst.op_spans@.len() == toks.len()
        &&& forall|k: int| 0 <= k < toks.len() ==> inst.op_spans@[k] == (#[trigger] toks[k]).0
    }
}

fn line_span_of(line: &[Spanned]) -> (r: Span)
    requires
        line@.len() > 0,
    ensures
        r == line_span(line@),
{
    Span { start: line[0].0.start, end: line[line.len() - 1].0.end }
}

fn find_bad_operand(line: &[Spanned], from: usize) -> (r: usize)
    requires
        from <= line@.len(),
    ensures
        r == first_bad_operand(line@, from as int),
    decreases line@.len() - from,
{
    if from >= line.len() {
        line.len()
    } else if !is_operand_token(&line[from].1) {
        from
    } else {
        find_bad_operand(line, from + 1)
    }
}

fn is_operand_token(t: &Token) -> (r: bool)
    ensures
        r == operand_token(*t),
{
    match t {
        Token::Gpr(_) | Token::BareNumber(_) | Token::Text(_) | Token::Comma | Token::Literal(_)
        | Token::Indirect(_) => true,
        _ => false,
    }
}

proof fn lemma_first_bad(ts: Seq<Spanned>, from: int)
    requires
        0 <= from <= ts.len(),
    ensures
        from <= first_bad_operand(ts, from) <= ts.len(),
        forall|k: int| from <= k < first_bad_operand(ts, from) ==> operand_token(#[trigger] ts[k].1),
        first_bad_operand(ts, from) < ts.len() ==> !operand_token(ts[first_bad_operand(ts, from)].1),
    decreases ts.len() - from,
{
    if from < ts.len() && operand_token(ts[from].1) {
        lemma_first_bad(ts, from + 1);
    }
}

/// The operand tokens from `from` on, converted, with their spans.
fn collect_ops(line: &[Spanned], from: usize) -> (r: (Vec<Op>, Vec<Span>))
    requires
        from <= line@.len(),
        forall|k: int| from <= k < line@.len() ==> operand_token(#[trigger] line@[k].1),
    ensures
        r.0@.len() == no_commas(line@.subrange(from as int, line@.len() as int)).len(),
        r.1@.len() == r.0@.len(),
        forall|k: int|
            0 <= k < r.0@.len() ==> token_op(
                #[trigger] no_commas(line@.subrange(from as int, line@.len() as int))[k].1,
                r.0@[k],
            ) && r.1@[k] == no_commas(line@.subrange(from as int, line@.len() as int))[k].0,
{
    let mut ops: Vec<Op> = Vec::new();
    let mut spans: Vec<Span> = Vec::new();
    let mut i = from;
    while i < line.len()
        invariant
            from <= i <= line@.len(),
            ops@.len() == no_commas(line@.subrange(from as int, i as int)).len(),
            spans@.len() == ops@.len(),
            forall|k: int|
                0 <= k < ops@.len() ==> token_op(
                    #[trigger] no_commas(line@.subrange(from as int, i as int))[k].1,
                    ops@[k],
                ) && spans@[k] == no_commas(line@.subrange(from as int, i as int))[k].0,
        decreases line@.len() - i,
    {
        let ghost prev = line@.subrange(from as int, i as int);
        let ghost next = line@.subrange(from as int, i + 1);
        proof {
            assert(next.drop_last() =~= prev);
            assert(next.last() == line@[i as int]);
        }
        match &line[i].1 {
            Token::Comma => {},
            t => {
                let op = t.to_op();
                ops.push(op);
                spans.push(line[i].0);
            },
        }
        i += 1;
    }
    proof {
        assert(line@.subrange(from as int, i as int) =~= line@.subrange(from as int, line@.len() as int));
    }
    (ops, spans)
}

/// Reads an instruction line. An empty line gives nothing; a line of any
/// other shape, an unknown opcode, or a token that cannot be an operand is
/// an error at the offending span.
pub fn get_inst<I: InstSet>(line: &[Spanned]) -> (r: Result<Option<Inst<I>>, ParseError>)
    ensures
        line@.len() == 0 ==> r == Ok::<Option<Inst<I>>, ParseError>(None),
        line@.len() > 0 && inst_shape(line@) is None ==> r == Err::<Option<Inst<I>>, ParseError>(
            (line_span(line@), ErrorKind::SyntaxError),
        ),
        line@.len() > 0 && inst_shape(line@) is Some ==> ({
            let (oi, ri) = inst_shape(line@)->Some_0;
            let bad = first_bad_operand(line@, ri);
            if !opcode_known::<I>(line@[oi].1->Text_0@) {
                r == Err::<Option<Inst<I>>, ParseError>(
                    (line@[oi].0, ErrorKind::InvalidOpcode(line@[oi].1->Text_0)),
                )
            } else if bad < line@.len() {
                r == Err::<Option<Inst<I>>, ParseError>((line@[bad].0, ErrorKind::InvalidOperand))
            } else {
                r is Ok && r->Ok_0 is Some && inst_of_line(line@, r->Ok_0->Some_0)
            }
        }),
{
    if line.len() == 0 {
        return Ok(None);
    }
    let span = line_span_of(line);
    let (addr, oi, ri): (Option<Addr>, usize, usize) = if line.len() >= 2 && matches!(line[0].1, Token::BareNumber(_))
        && matches!(line[1].1, Token::Text(_)) {
        match &line[0].1 {
            Token::BareNumber(a) => (Some(Addr::Bare(*a)), 1, 2),
            _ => (None, 1, 2),
        }
    } else if line.len() >= 3 && matches!(line[0].1, Token::Text(_)) && matches!(line[1].1, Token::Colon)
        && matches!(line[2].1, Token::Text(_)) {
        match &line[0].1 {
            Token::Text(l) => (Some(Addr::Label(l.clone())), 2, 3),
            _ => (None, 2, 3),
        }
    } else if matches!(line[0].1, Token::Text(_)) {
        (None, 0, 1)
    } else {
        return Err((span, ErrorKind::SyntaxError));
    };
    let opcode = match &line[oi].1 {
        Token::Text(name) => match I::from_name(name.as_str()) {
            Some(o) => o,
            None => return Err((line[oi].0, ErrorKind::InvalidOpcode(name.clone()))),
        },
        _ => return Err((span, ErrorKind::SyntaxError)),
    };
    let bad = find_bad_operand(line, ri);
    proof {
        lemma_first_bad(line@, ri as int);
    }
    if bad < line.len() {
        return Err((line[bad].0, ErrorKind::InvalidOperand));
    }
    let (mut ops, op_spans) = collect_ops(line, ri);
    let ghost toks = no_commas(line@.subrange(ri as int, line@.len() as int));
    let ghost all_ops = ops@;
    assert(addr_ok(line@, (oi as int, ri as int), addr));
    let op = if ops.len() == 0 {
        Op::Null
    } else if ops.len() == 1 {
        match ops.pop() {
            Some(o) => o,
            None => Op::Null,
        }
    } else {
        Op::MultiOp(ops)
    };
    proof {
        if toks.len() == 1 {
            assert(token_op(toks[0].1, all_ops[0]));
        }
        assert(ops_op(toks, op));
        assert(inst_shape(line@) == Some((oi as int, ri as int)));
        assert(upper_seq(opcode.spec_name()) == upper_seq(line@[oi as int].1->Text_0@));
        assert(first_bad_operand(line@, ri as int) == line@.len());
        assert forall|k: int| 0 <= k < toks.len() implies op_spans@[k] == (#[trigger] toks[k]).0 by {
            assert(token_op(toks[k].1, all_ops[k]));
        }
    }
    Ok(Some(Inst { addr, opcode, op, op_spans, span }))
}

/// The data of a memory line after its address: nothing (zero), one number,
/// or a linear block.
pub enum Data {
    Normal(usize),
    Linear(LinearMemory),
}

/// What a memory line's data tokens give.
pub open spec fn data_spec(rest: Seq<Spanned>) -> Option<Data> {
    if rest.len() == 0 {
        Some(Data::Normal(0))
    } else if rest.len() == 1 && rest[0].1 is BareNumber {
        Some(Data::Normal(rest[0].1->BareNumber_0))
    } else if rest.len() == 1 && rest[0].1 is LinearMemory {
        Some(Data::Linear(rest[0].1->LinearMemory_0))
    } else {
        None
    }
}

fn get_data(line: &[Spanned], from: usize) -> (r: Option<Data>)
    requires
        from <= line@.len(),
    ensures
        r == data_spec(line@.subrange(from as int, line@.len() as int)),
{
    let ghost rest = line@.subrange(from as int, line@.len() as int);
    if line.len() == from {
        Some(Data::Normal(0))
    } else if line.len() == from + 1 {
        proof {
            assert(rest[0] == line@[from as int]);
        }
        match &line[from].1 {
            Token::BareNumber(n) => Some(Data::Normal(*n)),
            Token::LinearMemory(m) => Some(Data::Linear(*m)),
            _ => None,
        }
    } else {
        None
    }
}

/// The error a memory line that is not accepted reports: a syntax error
/// at the data that cannot be read, or at the whole line.
pub open spec fn mem_error(ts: Seq<Spanned>) -> ParseError {
    let end = ts.last().0.end;
    if ts[0].1 is BareNumber && data_spec(ts.drop_first()) is None {
        (Span { start: ts[1].0.start, end }, ErrorKind::SyntaxError)
    } else if !(ts[0].1 is BareNumber) && ts.len() >= 2 && ts[0].1 is Text && ts[1].1 is Colon && data_spec(
        ts.subrange(2, ts.len() as int),
    ) is None {
        (Span { start: ts[2].0.start, end }, ErrorKind::SyntaxError)
    } else {
        (line_span(ts), ErrorKind::SyntaxError)
    }
}

/// The error a line of the memory block records, if any.
pub open spec fn mem_line_error(ts: Seq<Spanned>) -> Option<ParseError> {
    if ts.len() > 0 && !mem_line_accepted(ts) {
        Some(mem_error(ts))
    } else {
        None
    }
}

/// The error an instruction line records, if any: a line of no known
/// shape, an unknown opcode, or a token that cannot be an operand.
pub open spec fn inst_line_error<I: InstSet>(line: Seq<Spanned>) -> Option<ParseError> {
    if line.len() == 0 {
        None
    } else if inst_shape(line) is None {
        Some((line_span(line), ErrorKind::SyntaxError))
    } else {
        let (oi, ri) = inst_shape(line)->Some_0;
        let bad = first_bad_operand(line, ri);
        if !opcode_known::<I>(line[oi].1->Text_0@) {
            Some((line[oi].0, ErrorKind::InvalidOpcode(line[oi].1->Text_0)))
        } else if bad < line.len() {
            Some((line[bad].0, ErrorKind::InvalidOperand))
        } else {
            None
        }
    }
}

/// `entries` after recording, in order, the errors of the memory lines
/// `lines[s..k]`; an error at a span already recorded is dropped.
pub open spec fn mem_errors(entries: Seq<(Span, ErrorKind)>, lines: Seq<Vec<Spanned>>, s: int, k: int) -> Seq<(Span, ErrorKind)>
    decreases k - s,
{
    if k <= s {
        entries
    } else {
        let prev = mem_errors(entries, lines, s, k - 1);
        match mem_line_error(lines[k - 1]@) {
            Some(p) => add_first(prev, p.0, p.1),
            None => prev,
        }
    }
}

/// `entries` after recording, in order, the errors of the instruction
/// lines `lines[0..k]`; an error at a span already recorded is dropped.
pub open spec fn inst_errors<I: InstSet>(entries: Seq<(Span, ErrorKind)>, lines: Seq<Vec<Spanned>>, k: int) -> Seq<(Span, ErrorKind)>
    decreases k,
{
    if k <= 0 {
        entries
    } else {
        let prev = inst_errors::<I>(entries, lines, k - 1);
        match inst_line_error::<I>(lines[k - 1]@) {
            Some(p) => add_first(prev, p.0, p.1),
            None => prev,
        }
    }
}

/// The errors after reading the memory block `s..e`, then the instruction
/// lines before it.
pub open spec fn read_errors<I: InstSet>(entries: Seq<(Span, ErrorKind)>, lines: Seq<Vec<Spanned>>, s: int, e: int) -> Seq<(Span, ErrorKind)> {
    inst_errors::<I>(mem_errors(entries, lines, s, e), lines, s)
}

/// The line reads as memory: `n`, `n data`, `n [init;len]` whose cells fit
/// below the largest address, `label:` or `label: data`.
pub open spec fn mem_line_accepted(ts: Seq<Spanned>) -> bool {
    &&& ts.len() > 0
    &&& if ts[0].1 is BareNumber {
        match data_spec(ts.drop_first()) {
            Some(Data::Normal(_)) => true,
            Some(Data::Linear(m)) => ts[0].1->BareNumber_0 + m.len <= usize::MAX,
            None => false,
        }
    } else {
        &&& ts.len() >= 2 && ts[0].1 is Text && ts[1].1 is Colon
        &&& data_spec(ts.subrange(2, ts.len() as int)) is Some
        &&& data_spec(ts.subrange(2, ts.len() as int))->Some_0 is Normal
    }
}

/// The cells a memory line declares.
pub open spec fn mem_cells_ok(ts: Seq<Spanned>, cells: Seq<Mem>) -> bool {
    if ts[0].1 is BareNumber {
        let a = ts[0].1->BareNumber_0;
        match data_spec(ts.drop_first()) {
            Some(Data::Normal(d)) => cells.len() == 1 && cells[0].addr == Addr::Bare(a) && cells[0].data == d,
            Some(Data::Linear(m)) => cells.len() == m.len && a + m.len <= usize::MAX && forall|k: int|
                0 <= k < m.len ==> (#[trigger] cells[k]).addr == Addr::Bare((a + k) as usize)
                    && cells[k].data == m.init,
            None => false,
        }
    } else {
        &&& ts.len() >= 2 && ts[0].1 is Text && ts[1].1 is Colon
        &&& cells.len() == 1 && cells[0].addr is Label && cells[0].addr->Label_0 == ts[0].1->Text_0
        &&& data_spec(ts.subrange(2, ts.len() as int)) == Some(Data::Normal(cells[0].data))
    }
}

/// Reads a memory line: `n`, `n data`, `n [init;len]`, `label:` or
/// `label: data`. An empty line gives nothing.
pub fn get_mem(line: &[Spanned]) -> (r: Result<Option<Vec<Mem>>, ParseError>)
    ensures
        line@.len() == 0 ==> r is Ok && r->Ok_0 is None,
        line@.len() > 0 && mem_line_accepted(line@) ==> r is Ok && r->Ok_0 is Some && mem_cells_ok(
            line@,
            r->Ok_0->Some_0@,
        ),
        line@.len() > 0 && !mem_line_accepted(line@) ==> r == Err::<Option<Vec<Mem>>, ParseError>(mem_error(line@)),
{
    if line.len() == 0 {
        return Ok(None);
    }
    let span = line_span_of(line);
    let end = span.end;
    match &line[0].1 {
        Token::BareNumber(a) => {
            let a = *a;
            proof {
                assert(line@.drop_first() =~= line@.subrange(1, line@.len() as int));
            }
            match get_data(line, 1) {
                Some(Data::Normal(d)) => {
                    let mut cells: Vec<Mem> = Vec::new();
                    cells.push(Mem { addr: Addr::Bare(a), data: d, span });
                    Ok(Some(cells))
                },
                Some(Data::Linear(m)) => {
                    if a > usize::MAX - m.len {
                        return Err((span, ErrorKind::SyntaxError));
                    }
                    let mut cells: Vec<Mem> = Vec::new();
                    let mut k: usize = 0;
                    while k < m.len
                        invariant
                            k <= m.len,
                            a + m.len <= usize::MAX,
                            cells@.len() == k,
                            forall|j: int|
                                0 <= j < k ==> (#[trigger] cells@[j]).addr == Addr::Bare((a + j) as usize)
                                    && cells@[j].data == m.init,
                        decreases m.len - k,
                    {
                        cells.push(Mem { addr: Addr::Bare(a + k), data: m.init, span });
                        k += 1;
                    }
                    Ok(Some(cells))
                },
                None => Err((Span { start: line[1].0.start, end }, ErrorKind::SyntaxError)),
            }
        },
        Token::Text(label) => {
            if line.len() >= 2 && matches!(line[1].1, Token::Colon) {
                match get_data(line, 2) {
                    Some(Data::Normal(d)) => {
                        let mut cells: Vec<Mem> = Vec::new();
                        cells.push(Mem { addr: Addr::Label(label.clone()), data: d, span });
                        Ok(Some(cells))
                    },
                    Some(Data::Linear(_)) => Err((span, ErrorKind::SyntaxError)),
                    None => Err((Span { start: line[2].0.start, end }, ErrorKind::SyntaxError)),
                }
            } else {
                Err((span, ErrorKind::SyntaxError))
            }
        },
        _ => Err((span, ErrorKind::SyntaxError)),
    }
}

/// The lines of the last block: after the last blank line that has a
/// non-blank line after it, up to the trailing blank lines.
pub open spec fn is_last_block(lines: Seq<Vec<Spanned>>, s: int, e: int) -> bool {
    &&& 0 <= s <= e <= lines.len()
    &&& forall|k: int| e <= k < lines.len() ==> (#[trigger] lines[k])@.len() == 0
    &&& forall|k: int| s <= k < e ==> (#[trigger] lines[k])@.len() > 0
    &&& s > 0 ==> lines[s - 1]@.len() == 0
    &&& s < e
}

/// The instructions are read, in order, from exactly the lines before `s`
/// that read as instructions.
pub open spec fn from_lines<I: InstSet>(lines: Seq<Vec<Spanned>>, s: int, insts: Seq<Inst<I>>) -> bool {
    exists|idx: Seq<int>| #[trigger] lines_read(lines, s, insts, idx)
}

/// `insts` are read from the lines `idx` below `s`, in order, and these are
/// exactly the lines below `s` that read as instructions.
pub open spec fn lines_read<I: InstSet>(lines: Seq<Vec<Spanned>>, s: int, insts: Seq<Inst<I>>, idx: Seq<int>) -> bool {
    &&& idx.len() == insts.len()
    &&& forall|a: int, b: int| 0 <= a < b < idx.len() ==> (#[trigger] idx[a]) < (#[trigger] idx[b])
    &&& forall|k: int| 0 <= k < idx.len() ==> 0 <= #[trigger] idx[k] < s && inst_of_line(lines[idx[k]]@, insts[k])
    &&& forall|j: int| 0 <= j < s && inst_line_accepted::<I>(#[trigger] lines[j]@) ==> idx.contains(j)
}

/// `cells` are the cells that the memory lines `lines[s..k]` declare, in
/// line order, cut at `cuts`: an accepted line `s + j` gives exactly the
/// cells from `cuts[j]` to `cuts[j + 1]`, any other line none.
pub open spec fn cells_cut(lines: Seq<Vec<Spanned>>, s: int, k: int, cells: Seq<Mem>, cuts: Seq<int>) -> bool {
    &&& cuts.len() == k - s + 1
    &&& cuts[0] == 0
    &&& cuts[k - s] == cells.len()
    &&& forall|j: int| 0 <= j < k - s ==> 0 <= #[trigger] cuts[j] <= cuts[j + 1] <= cells.len()
    &&& forall|j: int|
        0 <= j < k - s ==> if mem_line_accepted(lines[s + j]@) {
            mem_cells_ok(lines[s + j]@, cells.subrange(#[trigger] cuts[j], cuts[j + 1]))
        } else {
            cuts[j] == cuts[j + 1]
        }
}

/// `cells` are the cells the memory lines `lines[s..k]` declare, in order.
pub open spec fn cells_from(lines: Seq<Vec<Spanned>>, s: int, k: int, cells: Seq<Mem>) -> bool {
    exists|cuts: Seq<int>| #[trigger] cells_cut(lines, s, k, cells, cuts)
}

/// The instruction lines before the last block and the memory lines of
/// the last block `s..e` read as `insts` and `mems`.
pub open spec fn read_parts<I: InstSet>(lines: Seq<Vec<Spanned>>, insts: Seq<Inst<I>>, mems: Seq<Mem>, s: int, e: int) -> bool {
    &&& is_last_block(lines, s, e)
    &&& exists|k: int| 0 <= k < s && (#[trigger] lines[k])@.len() > 0
    &&& from_lines(lines, s, insts)
    &&& cells_from(lines, s, e, mems)
}

/// The lines read as `insts` and `mems`, and no error was recorded exactly
/// when there was none before and every line was accepted.
pub open spec fn parts_read<I: InstSet>(
    lines: Seq<Vec<Spanned>>,
    insts: Seq<Inst<I>>,
    mems: Seq<Mem>,
    before: Seq<(Span, ErrorKind)>,
    after: Seq<(Span, ErrorKind)>,
) -> bool {
    exists|s: int, e: int|
        #[trigger] read_parts(lines, insts, mems, s, e) && (after.len() == 0 <==> (before.len() == 0
            && lines_accepted::<I>(lines, s, e))) && after == read_errors::<I>(before, lines, s, e)
}

/// Every non-blank line before `s` reads as an instruction, and every
/// non-blank line of `s..e` as memory.
pub open spec fn lines_accepted<I: InstSet>(lines: Seq<Vec<Spanned>>, s: int, e: int) -> bool {
    &&& forall|j: int| 0 <= j < s && (#[trigger] lines[j])@.len() > 0 ==> inst_line_accepted::<I>(lines[j]@)
    &&& forall|j: int| s <= j < e && (#[trigger] lines[j])@.len() > 0 ==> mem_line_accepted(lines[j]@)
}

/// The linked program: each instruction at its position with its opcode
/// and its operand resolved to where its symbols are defined, the memory
/// placed by the readdress rule, and no symbol defined twice.
pub open spec fn linked_program<I: InstSet>(prog: Seq<Inst<I>>, mem: Seq<Mem>, insts: Seq<InstIr<I>>, mems: Seq<MemIr>) -> bool {
    &&& insts.len() == prog.len()
    &&& forall|i: int| 0 <= i < prog.len() ==> {
        &&& (#[trigger] insts[i]).addr == i
        &&& insts[i].inst.inst == prog[i].opcode
        &&& insts[i].inst.id == prog[i].opcode.spec_id()
        &&& resolved_by(prog, mem, addrs_of(mems), prog[i].op, insts[i].inst.op)
        &&& !insts[i].inst.op.has_fail()
    }
    &&& memory_linked(mem, mems)
    &&& !duplicate_defs(prog, mem)
}

/// The lines, with no lexical error when `clean`, parse and link to
/// `insts` and `mems`: every line is accepted and the program links.
pub open spec fn parse_ok<I: InstSet>(lines: Seq<Vec<Spanned>>, clean: bool, insts: Seq<InstIr<I>>, mems: Seq<MemIr>) -> bool {
    exists|prog: Seq<Inst<I>>, mem: Seq<Mem>, s: int, e: int|
        #[trigger] read_parts(lines, prog, mem, s, e) && clean && lines_accepted::<I>(lines, s, e) && linked_program(
            prog,
            mem,
            insts,
            mems,
        )
}

/// The source has no non-blank line before its last block.
pub open spec fn no_inst_block(lines: Seq<Vec<Spanned>>) -> bool {
    !exists|s: int, e: int| is_last_block(lines, s, e) && exists|k: int| 0 <= k < s && (#[trigger] lines[k])@.len() > 0
}

/// The error map parsing returns, starting from the lexer's errors `errs`:
/// with no instruction block, those and a missing-block error at `0..0`;
/// else those and the errors of the memory lines and then of the
/// instruction lines, in line order, the first for each span; and when
/// there are none, the link error alone.
pub open spec fn parse_fails<I: InstSet>(lines: Seq<Vec<Spanned>>, errs: Seq<(Span, ErrorKind)>, map: Seq<(Span, ErrorKind)>) -> bool {
    ||| no_inst_block(lines) && map == add_first(errs, Span { start: 0, end: 0 }, ErrorKind::MissingMemoryBlock)
    ||| exists|prog: Seq<Inst<I>>, mem: Seq<Mem>, s: int, e: int|
        #[trigger] read_parts(lines, prog, mem, s, e) && if read_errors::<I>(errs, lines, s, e).len() > 0 {
            map == read_errors::<I>(errs, lines, s, e)
        } else {
            map.len() == 1 && link_error_at(prog, mem, map[0].0, map[0].1)
        }
}

/// Parses source text with an instruction set.
pub struct Parser<I> {
    pub lines: Vec<Vec<Spanned>>,
    pub err: ErrorMap,
    pub debug_info: DebugInfo,
    pub inst_set: PhantomData<I>,
}

/// The output of parsing: linked instructions, memory cells and debug
/// information.
pub type Parsed<I> = (Vec<InstIr<I>>, Vec<MemIr>, DebugInfo);

impl<I: InstSet> Parser<I> {
    /// Lexes the source.
    pub fn new(src: &str) -> (r: Parser<I>)
        ensures
            r.err.wf(),
            r.debug_info.inst_spans@.len() == 0,
            crate::lexer::lexed(src@, r.lines@.map_values(|l: Vec<Spanned>| l@), r.err.entries@),
    {
        let (lines, err) = lines(src);
        Parser { lines, err, debug_info: DebugInfo::new(), inst_set: PhantomData }
    }

    /// Reads the memory lines `lines[s..e]`, recording their errors.
    fn read_mems(&mut self, s: usize, e: usize) -> (r: Vec<Mem>)
        requires
            s <= e <= old(self).lines@.len(),
            old(self).err.wf(),
        ensures
            final(self).err.wf(),
            final(self).lines == old(self).lines,
            cells_from(old(self).lines@, s as int, e as int, r@),
            final(self).err.entries@.len() == 0 <==> (old(self).err.entries@.len() == 0 && forall|j: int|
                s <= j < e && (#[trigger] old(self).lines@[j])@.len() > 0 ==> mem_line_accepted(old(self).lines@[j]@)),
            final(self).err.entries@ == mem_errors(old(self).err.entries@, old(self).lines@, s as int, e as int),
    {
        let n = self.lines.len();
        let mut mems: Vec<Mem> = Vec::new();
        let mut k = s;
        let ghost mut cuts: Seq<int> = seq![0int];
        while k < e
            invariant
                s <= k <= e <= n == self.lines@.len(),
                self.err.wf(),
                self.lines == old(self).lines,
                cells_cut(self.lines@, s as int, k as int, mems@, cuts),
                self.err.entries@.len() == 0 <==> (old(self).err.entries@.len() == 0 && forall|j: int|
                    s <= j < k && (#[trigger] old(self).lines@[j])@.len() > 0 ==> mem_line_accepted(old(self).lines@[j]@)),
                self.err.entries@ == mem_errors(old(self).err.entries@, old(self).lines@, s as int, k as int),
            decreases e - k,
        {
            let ghost before = mems@;
            let ghost old_cuts = cuts;
            match get_mem(self.lines[k].as_slice()) {
                Ok(Some(cells)) => {
                    let mut cells = cells;
                    let ghost added = cells@;
                    mems.append(&mut cells);
                    proof {
                        assert(mems@.subrange(before.len() as int, mems@.len() as int) =~= added);
                        assert(self.lines@[k as int]@.len() > 0);
                    }
                },
                Ok(None) => {},
                Err((span, err)) => {
                    self.err.push_error(span, err);
                },
            }
            proof {
                cuts = old_cuts.push(mems@.len() as int);
                let d = k - s;
                assert forall|j: int| 0 <= j < d + 1 implies 0 <= #[trigger] cuts[j] <= cuts[j + 1] <= mems@.len() by {
                    if j < d {
                        assert(cuts[j] == old_cuts[j] && cuts[j + 1] == old_cuts[j + 1]);
                    }
                }
                assert forall|j: int| 0 <= j < d + 1 implies if mem_line_accepted(self.lines@[s + j]@) {
                    mem_cells_ok(self.lines@[s + j]@, mems@.subrange(#[trigger] cuts[j], cuts[j + 1]))
                } else {
                    cuts[j] == cuts[j + 1]
                } by {
                    if j < d {
                        assert(cuts[j] == old_cuts[j] && cuts[j + 1] == old_cuts[j + 1]);
                        assert(mems@.subrange(cuts[j], cuts[j + 1]) =~= before.subrange(old_cuts[j], old_cuts[j + 1]));
                    }
                }
            }
            k += 1;
        }
        proof {
            assert(cells_cut(old(self).lines@, s as int, e as int, mems@, cuts));
        }
        mems
    }

    /// Reads the instruction lines before `s`, recording their errors.
    fn read_insts(&mut self, s: usize) -> (r: (Vec<Span>, Vec<Inst<I>>))
        requires
            s <= old(self).lines@.len(),
            old(self).err.wf(),
        ensures
            final(self).err.wf(),
            final(self).lines == old(self).lines,
            r.0@.len() == r.1@.len(),
            forall|k: int| 0 <= k < r.0@.len() ==> (#[trigger] r.0@[k]) == r.1@[k].span,
            from_lines(old(self).lines@, s as int, r.1@),
            final(self).err.entries@.len() == 0 <==> (old(self).err.entries@.len() == 0 && forall|j: int|
                0 <= j < s && (#[trigger] old(self).lines@[j])@.len() > 0 ==> inst_line_accepted::<I>(old(self).lines@[j]@)),
            final(self).err.entries@ == inst_errors::<I>(old(self).err.entries@, old(self).lines@, s as int),
    {
        let n = self.lines.len();
        let mut spans: Vec<Span> = Vec::new();
        let mut insts: Vec<Inst<I>> = Vec::new();
        let mut i: usize = 0;
        let ghost mut idx: Seq<int> = Seq::empty();
        while i < s
            invariant
                i <= s <= n == self.lines@.len(),
                self.err.wf(),
                self.lines == old(self).lines,
                spans@.len() == insts@.len(),
                forall|k: int| 0 <= k < spans@.len() ==> (#[trigger] spans@[k]) == insts@[k].span,
                idx.len() == insts@.len(),
                forall|a: int, b: int| 0 <= a < b < idx.len() ==> (#[trigger] idx[a]) < (#[trigger] idx[b]),
                forall|k: int| 0 <= k < idx.len() ==> {
                    &&& 0 <= #[trigger] idx[k] < i
                    &&& inst_of_line(self.lines@[idx[k]]@, insts@[k])
                    &&& spans@[k] == insts@[k].span
                },
                forall|j: int| 0 <= j < i && inst_line_accepted::<I>(#[trigger] self.lines@[j]@) ==> idx.contains(j),
                self.err.entries@.len() == 0 <==> (old(self).err.entries@.len() == 0 && forall|j: int|
                    0 <= j < i && (#[trigger] old(self).lines@[j])@.len() > 0 ==> inst_line_accepted::<I>(old(self).lines@[j]@)),
                self.err.entries@ == inst_errors::<I>(old(self).err.entries@, old(self).lines@, i as int),
            decreases s - i,
        {
            let ghost before_idx = idx;
            match get_inst::<I>(self.lines[i].as_slice()) {
                Ok(Some(inst)) => {
                    spans.push(inst.span);
                    insts.push(inst);
                    proof {
                        idx = idx.push(i as int);
                        assert forall|j: int| 0 <= j < i + 1 && inst_line_accepted::<I>(#[trigger] self.lines@[j]@) implies idx.contains(j) by {
                            if j < i {
                                let k = choose|k: int| 0 <= k < before_idx.len() && before_idx[k] == j;
                                assert(idx[k] == j);
                            } else {
                                assert(idx[idx.len() - 1] == j);
                            }
                        }
                    }
                },
                Ok(None) => {},
                Err((span, err)) => self.err.push_error(span, err),
            }
            i += 1;
        }
        proof {
            assert forall|k: int| 0 <= k < idx.len() implies inst_line_accepted::<I>(self.lines@[#[trigger] idx[k]]@) by {
                let l = self.lines@[idx[k]]@;
                assert(opcode_known::<I>(l[inst_shape(l)->Some_0.0].1->Text_0@)) by {
                    let t = insts@[k].opcode;
                    assert(upper_seq(t.spec_name()) == upper_seq(l[inst_shape(l)->Some_0.0].1->Text_0@));
                }
            }
            assert(lines_read(old(self).lines@, s as int, insts@, idx));
        }
        (spans, insts)
    }

    /// Splits the lines into the instruction lines and the memory lines of
    /// the last block, reads each, and records the errors. With fewer than
    /// two blocks there is nothing to read.
    pub fn get_insts_and_mems(&mut self) -> (r: Option<(Vec<Span>, Vec<Inst<I>>, Vec<Mem>)>)
        requires
            old(self).err.wf(),
        ensures
            final(self).err.wf(),
            final(self).lines == old(self).lines,
            r is None <==> !exists|s: int, e: int| is_last_block(old(self).lines@, s, e) && exists|k: int| 0 <= k < s && (#[trigger] old(self).lines@[k])@.len() > 0,
            r is Some ==> r->Some_0.0@.len() == r->Some_0.1@.len(),
            r is None ==> final(self).err == old(self).err,
            r is Some ==> parts_read::<I>(old(self).lines@, r->Some_0.1@, r->Some_0.2@, old(self).err.entries@,
                final(self).err.entries@),
            r is Some ==> forall|k: int| 0 <= k < r->Some_0.0@.len() ==> (#[trigger] r->Some_0.0@[k]) == r->Some_0.1@[k].span,
    {
        let n = self.lines.len();
        let mut e = n;
        while e > 0 && self.lines[e - 1].len() == 0
            invariant
                e <= n == self.lines@.len(),
                forall|k: int| e <= k < n ==> (#[trigger] self.lines@[k])@.len() == 0,
            decreases e,
        {
            e -= 1;
        }
        let mut s = e;
        while s > 0 && self.lines[s - 1].len() > 0
            invariant
                s <= e <= n == self.lines@.len(),
                forall|k: int| s <= k < e ==> (#[trigger] self.lines@[k])@.len() > 0,
            decreases s,
        {
            s -= 1;
        }
        let mut j: usize = 0;
        while j < s && self.lines[j].len() == 0
            invariant
                j <= s <= n == self.lines@.len(),
                forall|k: int| 0 <= k < j ==> (#[trigger] self.lines@[k])@.len() == 0,
            decreases s - j,
        {
            j += 1;
        }
        if s == e || j == s {
            proof {
                assert forall|s2: int, e2: int| is_last_block(self.lines@, s2, e2) implies !exists|k: int| 0 <= k < s2 && (#[trigger] self.lines@[k])@.len() > 0 by {
                    assert(self.lines@[e2 - 1]@.len() > 0);
                    assert(self.lines@[s2]@.len() > 0);
                    if e2 < e {
                        assert(self.lines@[e - 1]@.len() > 0 || e == 0);
                        if e > 0 && s < e {
                            assert(self.lines@[e - 1]@.len() > 0);
                        }
                    }
                    if e2 > e {
                        assert(self.lines@[e2 - 1]@.len() == 0);
                    }
                    if e == 0 {
                        assert(self.lines@[s2]@.len() == 0);
                    }
                    if s == e && e > 0 {
                        assert(self.lines@[e - 1]@.len() == 0);
                    }
                    assert(e2 == e);
                    if s2 < s {
                        assert(self.lines@[s - 1]@.len() > 0);
                    }
                    if s2 > s {
                        assert(self.lines@[s2 - 1]@.len() == 0);
                    }
                    assert(s2 == s);
                }
            }
            return None;
        }
        proof {
            assert(is_last_block(self.lines@, s as int, e as int));
            assert(self.lines@[j as int]@.len() > 0);
        }
        let mems = self.read_mems(s, e);
        let ghost mid = self.err.entries@;
        let (spans, insts) = self.read_insts(s);
        proof {
            assert(read_parts(old(self).lines@, insts@, mems@, s as int, e as int));
            let ls = old(self).lines@;
            assert((self.err.entries@.len() == 0) == (old(self).err.entries@.len() == 0 && lines_accepted::<I>(ls, s as int, e as int))) by {
                if self.err.entries@.len() == 0 {
                    assert(mid.len() == 0);
                }
                if old(self).err.entries@.len() == 0 && lines_accepted::<I>(ls, s as int, e as int) {
                    assert forall|j: int| s <= j < e && (#[trigger] ls[j])@.len() > 0 implies mem_line_accepted(ls[j]@) by {}
                    assert(mid.len() == 0);
                    assert forall|j: int| 0 <= j < s && (#[trigger] ls[j])@.len() > 0 implies inst_line_accepted::<I>(ls[j]@) by {}
                }
            }
            assert(read_parts(old(self).lines@, insts@, mems@, s as int, e as int) && (self.err.entries@.len() == 0 <==> (
            old(self).err.entries@.len() == 0 && lines_accepted::<I>(old(self).lines@, s as int, e as int))));
            assert(self.lines@[j as int]@.len() > 0);
            assert(read_parts(old(self).lines@, insts@, mems@, s as int, e as int));
            assert(self.err.entries@ == read_errors::<I>(old(self).err.entries@, old(self).lines@, s as int, e as int));
            assert(parts_read::<I>(old(self).lines@, insts@, mems@, old(self).err.entries@,
                self.err.entries@));
        }
        Some((spans, insts, mems))
    }

    /// Parses and links the program. The lexer's errors and the errors of
    /// every line are returned, keyed by span; when there are none, a link
    /// error is returned alone. A source without an instruction block before
    /// its memory block adds an error of its own.
    pub fn parse(self) -> (r: Result<Parsed<I>, ErrorMap>)
        requires
            self.err.wf(),
        ensures
            match r {
                Ok((insts, mems, _)) => parse_ok::<I>(self.lines@, self.err.entries@.len() == 0, insts@, mems@),
                Err(map) => map.entries@.len() > 0 && map.wf() && parse_fails::<I>(
                    self.lines@,
                    self.err.entries@,
                    map.entries@,
                ),
            },
    {
        let mut this = self;
        let (inst_spans, insts, mems) = match this.get_insts_and_mems() {
            Some(parts) => parts,
            None => {
                let mut map = this.err;
                map.push_error(Span { start: 0, end: 0 }, ErrorKind::MissingMemoryBlock);
                proof {
                    assert(no_inst_block(self.lines@));
                    assert(map.entries@.len() > 0);
                }
                return Err(map);
            },
        };
        this.debug_info.inst_spans = inst_spans;
        let ghost prog = insts@;
        let ghost memv = mems@;
        let ghost clean = self.err.entries@.len() == 0;
        let ghost (bs, be) = choose|s: int, e: int|
            #[trigger] read_parts(self.lines@, prog, memv, s, e) && (this.err.entries@.len() == 0 <==> (clean
                && lines_accepted::<I>(self.lines@, s, e))) && this.err.entries@ == read_errors::<I>(
                self.err.entries@,
                self.lines@,
                s,
                e,
            );
        if !this.err.is_empty() {
            proof {
                assert(read_parts(self.lines@, prog, memv, bs, be));
            }
            return Err(this.err);
        }
        let mut linker = Linker::new();
        let linked = match linker.link(insts.as_slice(), mems.as_slice()) {
            Ok(l) => l,
            Err((span, e)) => {
                let mut map = this.err;
                map.push_error(span, e);
                proof {
                    assert(map.entries@.len() == 1);
                    assert(map.entries@[0] == (span, e));
                    assert(read_parts(self.lines@, prog, memv, bs, be));
                }
                return Err(map);
            },
        };
        let mut debug_info = this.debug_info;
        let mut k: usize = 0;
        while k < linked.prog_labels.len()
            decreases linked.prog_labels.len() - k,
        {
            let (a, l) = &linked.prog_labels[k];
            debug_info.prog.insert(*a, l.clone());
            k += 1;
        }
        let mut k: usize = 0;
        while k < linked.mem_labels.len()
            decreases linked.mem_labels.len() - k,
        {
            let (a, l) = &linked.mem_labels[k];
            debug_info.mem.insert(*a, l.clone());
            k += 1;
        }
        proof {
            assert(linked_program(prog, memv, linked.insts@, linked.mems@));
            assert(read_parts(self.lines@, prog, memv, bs, be));
        }
        Ok((linked.insts, linked.mems, debug_info))
    }
}

} // verus!
