//! Instruction sets: named, numbered collections of instructions, and the
//! core set of the language.

use vstd::prelude::*;

use crate::arith::{self, binop_post, step_post, BinKind};
use crate::cmp::{self, cmi_post, cmp_post, cond_jump_post, jmp_post};
use crate::context::{assigned, fails, indexed_read, indirect_read, jumped, mem_read, Context};
use crate::error::{RtError, RtResult};
use crate::exec::ExecInst;
use crate::inst::Op;
use crate::io::{self, call_post, dbg_post, end_post, inp_post, out_post, rin_post, zero_post};
use crate::mov::{self, ldm_post, load_post, mov_post};
use crate::text::{chars_of, eq_ignore_case, upper_seq};

verus! {

/// A set of instructions, each with a mnemonic and a stable numeric id.
///
/// Implement this for custom instruction sets; an extension of a set adds
/// its own instructions and hands every other name and id on to its parent.
///
/// The contracts below are what the parser, compiler and executor rely on
/// of a set: the sets of this library define `spec_id`, `spec_name` and
/// `exec_post` and are proved to meet them. A set implemented in unverified
/// code keeps the placeholder definitions (id 0, empty mnemonic, no effect
/// stated), which its methods do not meet; such a set is unchecked, and what
/// the library states about parsing or running with it does not apply.
pub trait InstSet: Sized + Copy {
    /// The numeric id of an instruction.
    open spec fn spec_id(&self) -> u64 {
        0
    }

    /// The mnemonic of an instruction.
    open spec fn spec_name(&self) -> Seq<char> {
        Seq::empty()
    }

    /// The instruction with this mnemonic, compared without regard to case.
    fn from_name(name: &str) -> (r: Option<Self>)
        ensures
            r is Some ==> upper_seq(r->Some_0.spec_name()) == upper_seq(name@),
            r is None ==> forall|i: Self| upper_seq(#[trigger] i.spec_name()) != upper_seq(name@),
    ;

    fn id(&self) -> (r: u64)
        ensures
            r == self.spec_id(),
    ;

    /// The instruction with this id.
    fn from_id(id: u64) -> (r: Option<Self>)
        ensures
            r is Some ==> r->Some_0.spec_id() == id,
            r is None ==> forall|i: Self| #[trigger] i.spec_id() != id,
    ;

    fn name(&self) -> (r: String)
        ensures
            r@ == self.spec_name(),
    ;

    /// What running the instruction does to a context.
    open spec fn exec_post(&self, old: Context, new: Context, op: Op, r: RtResult<()>) -> bool {
        true
    }

    /// Runs the instruction on a context.
    fn exec(&self, ctx: &mut Context, op: &Op) -> (r: RtResult<()>)
        ensures
            self.exec_post(*old(ctx), *final(ctx), *op, r),
    ;
}

/// The core instruction set.
///
/// * Memory and register manipulation: `LDM`, `LDD`, `LDI`, `LDX`, `LDR`, `MOV`, `STO`
/// * Comparison: `CMP`, `JPE`, `JPN`, `JMP`, `CMI`
/// * Basic I/O: `IN`, `OUT`, `END`
/// * Arithmetic: `INC`, `DEC`, `ADD`, `SUB`
/// * Bit manipulation: `AND`, `OR`, `XOR`, `LSL`, `LSR`
#[derive(Debug, Clone, Copy, PartialEq, Eq)]
pub enum Core {
    LDM,
    LDD,
    LDI,
    LDX,
    LDR,
    MOV,
    STO,
    CMP,
    JPE,
    JPN,
    JMP,
    CMI,
    IN,
    OUT,
    END,
    INC,
    DEC,
    ADD,
    SUB,
    AND,
    OR,
    XOR,
    LSL,
    LSR,
}

/// Number of instructions in the core set.
pub const CORE_COUNT: u64 = 24;

/// What running a core instruction does.
pub open spec fn core_post(inst: Core, old: Context, new: Context, op: Op, r: RtResult<()>) -> bool {
    match inst {
        Core::LDM => ldm_post(old, new, op, r),
        Core::LDD => load_post(old, new, op, r, |a: usize| mem_read(old, a)),
        Core::LDI => load_post(old, new, op, r, |a: usize| indirect_read(old, a)),
        Core::LDX => load_post(old, new, op, r, |a: usize| indexed_read(old, a)),
        Core::LDR => match op {
            Op::Literal(v) => assigned(old, new, r, Op::Ix, v),
            Op::Null => fails(old, new, r, RtError::NoOperand),
            _ => fails(old, new, r, RtError::InvalidOperand),
        },
        Core::MOV => mov_post(old, new, op, r),
        Core::STO => match op {
            Op::Addr(_) => assigned(old, new, r, op, old.acc),
            Op::Null => fails(old, new, r, RtError::NoOperand),
            _ => fails(old, new, r, RtError::InvalidOperand),
        },
        Core::CMP => cmp_post(old, new, op, r),
        Core::JPE => cond_jump_post(old, new, op, r, true),
        Core::JPN => cond_jump_post(old, new, op, r, false),
        Core::JMP => jmp_post(old, new, op, r),
        Core::CMI => cmi_post(old, new, op, r),
        Core::IN => inp_post(old, new, op, r),
        Core::OUT => out_post(old, new, op, r),
        Core::END => end_post(old, new, r),
        Core::INC => step_post(old, new, op, r, BinKind::Add),
        Core::DEC => step_post(old, new, op, r, BinKind::Sub),
        Core::ADD => binop_post(old, new, op, r, BinKind::Add),
        Core::SUB => binop_post(old, new, op, r, BinKind::Sub),
        Core::AND => binop_post(old, new, op, r, BinKind::And),
        Core::OR => binop_post(old, new, op, r, BinKind::Or),
        Core::XOR => binop_post(old, new, op, r, BinKind::Xor),
        Core::LSL => binop_post(old, new, op, r, BinKind::Lsl),
        Core::LSR => binop_post(old, new, op, r, BinKind::Lsr),
    }
}

impl Core {
    pub open spec fn spec_id(self) -> u64 {
        match self {
            Core::LDM => 0,
            Core::LDD => 1,
            Core::LDI => 2,
            Core::LDX => 3,
            Core::LDR => 4,
            Core::MOV => 5,
            Core::STO => 6,
            Core::CMP => 7,
            Core::JPE => 8,
            Core::JPN => 9,
            Core::JMP => 10,
            Core::CMI => 11,
            Core::IN => 12,
            Core::OUT => 13,
            Core::END => 14,
            Core::INC => 15,
            Core::DEC => 16,
            Core::ADD => 17,
            Core::SUB => 18,
            Core::AND => 19,
            Core::OR => 20,
            Core::XOR => 21,
            Core::LSL => 22,
            Core::LSR => 23,
        }
    }

    pub open spec fn spec_name(self) -> Seq<char> {
        match self {
            Core::LDM => "LDM"@,
            Core::LDD => "LDD"@,
            Core::LDI => "LDI"@,
            Core::LDX => "LDX"@,
            Core::LDR => "LDR"@,
            Core::MOV => "MOV"@,
            Core::STO => "STO"@,
            Core::CMP => "CMP"@,
            Core::JPE => "JPE"@,
            Core::JPN => "JPN"@,
            Core::JMP => "JMP"@,
            Core::CMI => "CMI"@,
            Core::IN => "IN"@,
            Core::OUT => "OUT"@,
            Core::END => "END"@,
            Core::INC => "INC"@,
            Core::DEC => "DEC"@,
            Core::ADD => "ADD"@,
            Core::SUB => "SUB"@,
            Core::AND => "AND"@,
            Core::OR => "OR"@,
            Core::XOR => "XOR"@,
            Core::LSL => "LSL"@,
            Core::LSR => "LSR"@,
        }
    }

    /// The mnemonic.
    pub fn mnemonic(&self) -> (r: &'static str)
        ensures
            r@ == self.spec_name(),
    {
        match self {
            Core::LDM => "LDM",
            Core::LDD => "LDD",
            Core::LDI => "LDI",
            Core::LDX => "LDX",
            Core::LDR => "LDR",
            Core::MOV => "MOV",
            Core::STO => "STO",
            Core::CMP => "CMP",
            Core::JPE => "JPE",
            Core::JPN => "JPN",
            Core::JMP => "JMP",
            Core::CMI => "CMI",
            Core::IN => "IN",
            Core::OUT => "OUT",
            Core::END => "END",
            Core::INC => "INC",
            Core::DEC => "DEC",
            Core::ADD => "ADD",
            Core::SUB => "SUB",
            Core::AND => "AND",
            Core::OR => "OR",
            Core::XOR => "XOR",
            Core::LSL => "LSL",
            Core::LSR => "LSR",
        }
    }

    /// The instruction with this mnemonic, in any letter case.
    pub fn lookup(name: &[char]) -> (r: Option<Core>)
        ensures
            r is Some ==> upper_seq(r->Some_0.spec_name()) == upper_seq(name@),
            r is None ==> forall|c: Core| upper_seq(#[trigger] c.spec_name()) != upper_seq(name@),
    {
        if eq_ignore_case(name, "LDM") {
            return Some(Core::LDM);
        }
        if eq_ignore_case(name, "LDD") {
            return Some(Core::LDD);
        }
        if eq_ignore_case(name, "LDI") {
            return Some(Core::LDI);
        }
        if eq_ignore_case(name, "LDX") {
            return Some(Core::LDX);
        }
        if eq_ignore_case(name, "LDR") {
            return Some(Core::LDR);
        }
        if eq_ignore_case(name, "MOV") {
            return Some(Core::MOV);
        }
        if eq_ignore_case(name, "STO") {
            return Some(Core::STO);
        }
        if eq_ignore_case(name, "CMP") {
            return Some(Core::CMP);
        }
        if eq_ignore_case(name, "JPE") {
            return Some(Core::JPE);
        }
        if eq_ignore_case(name, "JPN") {
            return Some(Core::JPN);
        }
        if eq_ignore_case(name, "JMP") {
            return Some(Core::JMP);
        }
        if eq_ignore_case(name, "CMI") {
            return Some(Core::CMI);
        }
        if eq_ignore_case(name, "IN") {
            return Some(Core::IN);
        }
        if eq_ignore_case(name, "OUT") {
            return Some(Core::OUT);
        }
        if eq_ignore_case(name, "END") {
            return Some(Core::END);
        }
        if eq_ignore_case(name, "INC") {
            return Some(Core::INC);
        }
        if eq_ignore_case(name, "DEC") {
            return Some(Core::DEC);
        }
        if eq_ignore_case(name, "ADD") {
            return Some(Core::ADD);
        }
        if eq_ignore_case(name, "SUB") {
            return Some(Core::SUB);
        }
        if eq_ignore_case(name, "AND") {
            return Some(Core::AND);
        }
        if eq_ignore_case(name, "OR") {
            return Some(Core::OR);
        }
        if eq_ignore_case(name, "XOR") {
            return Some(Core::XOR);
        }
        if eq_ignore_case(name, "LSL") {
            return Some(Core::LSL);
        }
        if eq_ignore_case(name, "LSR") {
            return Some(Core::LSR);
        }
        proof {
            assert forall|c: Core| upper_seq(#[trigger] c.spec_name()) != upper_seq(name@) by {
                match c {
                    Core::LDM => {},
                    Core::LDD => {},
                    Core::LDI => {},
                    Core::LDX => {},
                    Core::LDR => {},
                    Core::MOV => {},
                    Core::STO => {},
                    Core::CMP => {},
                    Core::JPE => {},
                    Core::JPN => {},
                    Core::JMP => {},
                    Core::CMI => {},
                    Core::IN => {},
                    Core::OUT => {},
                    Core::END => {},
                    Core::INC => {},
                    Core::DEC => {},
                    Core::ADD => {},
                    Core::SUB => {},
                    Core::AND => {},
                    Core::OR => {},
                    Core::XOR => {},
                    Core::LSL => {},
                    Core::LSR => {},
                }
            }
        }
        None
    }

    /// The instruction with this id.
    pub fn with_id(id: u64) -> (r: Option<Core>)
        ensures
            r is Some <==> id < CORE_COUNT,
            r is Some ==> r->Some_0.spec_id() == id,
    {
        match id {
            0 => Some(Core::LDM),
            1 => Some(Core::LDD),
            2 => Some(Core::LDI),
            3 => Some(Core::LDX),
            4 => Some(Core::LDR),
            5 => Some(Core::MOV),
            6 => Some(Core::STO),
            7 => Some(Core::CMP),
            8 => Some(Core::JPE),
            9 => Some(Core::JPN),
            10 => Some(Core::JMP),
            11 => Some(Core::CMI),
            12 => Some(Core::IN),
            13 => Some(Core::OUT),
            14 => Some(Core::END),
            15 => Some(Core::INC),
            16 => Some(Core::DEC),
            17 => Some(Core::ADD),
            18 => Some(Core::SUB),
            19 => Some(Core::AND),
            20 => Some(Core::OR),
            21 => Some(Core::XOR),
            22 => Some(Core::LSL),
            23 => Some(Core::LSR),
            _ => None,
        }
    }

    /// Runs the instruction.
    pub fn execute(&self, ctx: &mut Context, op: &Op) -> (r: RtResult<()>)
        ensures
            core_post(*self, *old(ctx), *final(ctx), *op, r),
    {
        match self {
            Core::LDM => mov::ldm(ctx, op),
            Core::LDD => mov::ldd(ctx, op),
            Core::LDI => mov::ldi(ctx, op),
            Core::LDX => mov::ldx(ctx, op),
            Core::LDR => mov::ldr(ctx, op),
            Core::MOV => mov::mov(ctx, op),
            Core::STO => mov::sto(ctx, op),
            Core::CMP => cmp::cmp(ctx, op),
            Core::JPE => cmp::jpe(ctx, op),
            Core::JPN => cmp::jpn(ctx, op),
            Core::JMP => cmp::jmp(ctx, op),
            Core::CMI => cmp::cmi(ctx, op),
            Core::IN => io::inp(ctx, op),
            Core::OUT => io::out(ctx, op),
            Core::END => io::end(ctx, op),
            Core::INC => arith::inc(ctx, op),
            Core::DEC => arith::dec(ctx, op),
            Core::ADD => arith::add(ctx, op),
            Core::SUB => arith::sub(ctx, op),
            Core::AND => arith::and(ctx, op),
            Core::OR => arith::or(ctx, op),
            Core::XOR => arith::xor(ctx, op),
            Core::LSL => arith::lsl(ctx, op),
            Core::LSR => arith::lsr(ctx, op),
        }
    }
}

impl InstSet for Core {
    open spec fn spec_id(&self) -> u64 {
        Core::spec_id(*self)
    }

    open spec fn spec_name(&self) -> Seq<char> {
        Core::spec_name(*self)
    }

    open spec fn exec_post(&self, old: Context, new: Context, op: Op, r: RtResult<()>) -> bool {
        core_post(*self, old, new, op, r)
    }

    fn from_name(name: &str) -> (r: Option<Core>) {
        let cs = chars_of(name);
        Core::lookup(cs.as_slice())
    }

    fn id(&self) -> (r: u64) {
        match self {
            Core::LDM => 0,
            Core::LDD => 1,
            Core::LDI => 2,
            Core::LDX => 3,
            Core::LDR => 4,
            Core::MOV => 5,
            Core::STO => 6,
            Core::CMP => 7,
            Core::JPE => 8,
            Core::JPN => 9,
            Core::JMP => 10,
            Core::CMI => 11,
            Core::IN => 12,
            Core::OUT => 13,
            Core::END => 14,
            Core::INC => 15,
            Core::DEC => 16,
            Core::ADD => 17,
            Core::SUB => 18,
            Core::AND => 19,
            Core::OR => 20,
            Core::XOR => 21,
            Core::LSL => 22,
            Core::LSR => 23,
        }
    }

    fn from_id(id: u64) -> (r: Option<Core>) {
        let r = Core::with_id(id);
        proof {
            if r is None {
                assert forall|i: Core| #[trigger] i.spec_id() != id by {
                    assert(i.spec_id() < CORE_COUNT);
                }
            }
        }
        r
    }

    fn name(&self) -> (r: String) {
        self.mnemonic().to_owned()
    }

    fn exec(&self, ctx: &mut Context, op: &Op) -> (r: RtResult<()>) {
        self.execute(ctx, op)
    }
}

/// An instruction after parsing: its id, its opcode and its operand.
pub struct Inst<T> {
    pub id: u64,
    pub inst: T,
    pub op: Op,
}

impl<T: InstSet> Inst<T> {
    pub fn new(inst: T, op: Op) -> (r: Inst<T>)
        ensures
            r.id == inst.spec_id(),
            r.inst == inst,
            r.op == op,
    {
        Inst { id: inst.id(), inst, op }
    }

    /// The runtime form of the instruction.
    pub fn to_exec_inst(self) -> (r: ExecInst)
        ensures
            r.id == self.id,
            r.op == self.op,
    {
        ExecInst::new(self.id, self.op)
    }
}

/// A linked instruction with its program address.
pub struct InstIr<I> {
    pub addr: usize,
    pub inst: Inst<I>,
}

impl<I: InstSet> InstIr<I> {
    pub fn new(addr: usize, opcode: I, op: Op) -> (r: InstIr<I>)
        ensures
            r.addr == addr,
            r.inst.inst == opcode,
            r.inst.id == opcode.spec_id(),
            r.inst.op == op,
    {
        InstIr { addr, inst: Inst::new(opcode, op) }
    }
}

/// Instructions the extended set adds to the core set.
#[derive(Debug, Clone, Copy, PartialEq, Eq)]
pub enum ExtInst {
    ZERO,
    DBG,
    RIN,
    CALL,
    RET,
    NOP,
}

/// The first id of the parent set within the extended set: ids below it
/// belong to the extension, and parent id `i` becomes `FIRST_PARENT_ID + i`.
pub const FIRST_PARENT_ID: u64 = 6;

impl ExtInst {
    pub open spec fn spec_id(self) -> u64 {
        match self {
            ExtInst::ZERO => 0,
            ExtInst::DBG => 1,
            ExtInst::RIN => 2,
            ExtInst::CALL => 3,
            ExtInst::RET => 4,
            ExtInst::NOP => 5,
        }
    }

    pub open spec fn spec_name(self) -> Seq<char> {
        match self {
            ExtInst::ZERO => "ZERO"@,
            ExtInst::DBG => "DBG"@,
            ExtInst::RIN => "RIN"@,
            ExtInst::CALL => "CALL"@,
            ExtInst::RET => "RET"@,
            ExtInst::NOP => "NOP"@,
        }
    }

    pub fn id(&self) -> (r: u64)
        ensures
            r == self.spec_id(),
    {
        match self {
            ExtInst::ZERO => 0,
            ExtInst::DBG => 1,
            ExtInst::RIN => 2,
            ExtInst::CALL => 3,
            ExtInst::RET => 4,
            ExtInst::NOP => 5,
        }
    }

    pub fn mnemonic(&self) -> (r: &'static str)
        ensures
            r@ == self.spec_name(),
    {
        match self {
            ExtInst::ZERO => "ZERO",
            ExtInst::DBG => "DBG",
            ExtInst::RIN => "RIN",
            ExtInst::CALL => "CALL",
            ExtInst::RET => "RET",
            ExtInst::NOP => "NOP",
        }
    }

    /// The instruction with this mnemonic, in any letter case.
    pub fn lookup(name: &[char]) -> (r: Option<ExtInst>)
        ensures
            r is Some ==> upper_seq(r->Some_0.spec_name()) == upper_seq(name@),
            r is None ==> forall|c: ExtInst| upper_seq(#[trigger] c.spec_name()) != upper_seq(name@),
    {
        if eq_ignore_case(name, "ZERO") {
            return Some(ExtInst::ZERO);
        }
        if eq_ignore_case(name, "DBG") {
            return Some(ExtInst::DBG);
        }
        if eq_ignore_case(name, "RIN") {
            return Some(ExtInst::RIN);
        }
        if eq_ignore_case(name, "CALL") {
            return Some(ExtInst::CALL);
        }
        if eq_ignore_case(name, "RET") {
            return Some(ExtInst::RET);
        }
        if eq_ignore_case(name, "NOP") {
            return Some(ExtInst::NOP);
        }
        proof {
            assert forall|c: ExtInst| upper_seq(#[trigger] c.spec_name()) != upper_seq(name@) by {
                match c {
                    ExtInst::ZERO => {},
                    ExtInst::DBG => {},
                    ExtInst::RIN => {},
                    ExtInst::CALL => {},
                    ExtInst::RET => {},
                    ExtInst::NOP => {},
                }
            }
        }
        None
    }

    pub fn with_id(id: u64) -> (r: Option<ExtInst>)
        ensures
            r is Some <==> id < FIRST_PARENT_ID,
            r is Some ==> r->Some_0.spec_id() == id,
    {
        match id {
            0 => Some(ExtInst::ZERO),
            1 => Some(ExtInst::DBG),
            2 => Some(ExtInst::RIN),
            3 => Some(ExtInst::CALL),
            4 => Some(ExtInst::RET),
            5 => Some(ExtInst::NOP),
            _ => None,
        }
    }

    /// Runs the instruction.
    pub fn execute(&self, ctx: &mut Context, op: &Op) -> (r: RtResult<()>)
        ensures
            ext_post(*self, *old(ctx), *final(ctx), *op, r),
    {
        match self {
            ExtInst::ZERO => io::zero(ctx, op),
            ExtInst::DBG => io::dbg(ctx, op),
            ExtInst::RIN => io::rin(ctx, op),
            ExtInst::CALL => io::call(ctx, op),
            ExtInst::RET => io::ret(ctx, op),
            ExtInst::NOP => io::nop(ctx, op),
        }
    }
}

/// What running an instruction of the extension does.
pub open spec fn ext_post(inst: ExtInst, old: Context, new: Context, op: Op, r: RtResult<()>) -> bool {
    match inst {
        ExtInst::ZERO => zero_post(old, new, op, r),
        ExtInst::DBG => dbg_post(old, new, op, r),
        ExtInst::RIN => rin_post(old, new, op, r),
        ExtInst::CALL => call_post(old, new, op, r),
        ExtInst::RET => r is Ok && jumped(old, new, old.ret),
        ExtInst::NOP => r is Ok && new == old,
    }
}

/// What running an instruction of the extended set does.
pub open spec fn extended_post(inst: Extended, old: Context, new: Context, op: Op, r: RtResult<()>) -> bool {
    match inst {
        Extended::Extension(e) => ext_post(e, old, new, op, r),
        Extended::Parent(c) => core_post(c, old, new, op, r),
    }
}

impl Extended {
    /// Runs the instruction.
    pub fn execute(&self, ctx: &mut Context, op: &Op) -> (r: RtResult<()>)
        ensures
            extended_post(*self, *old(ctx), *final(ctx), *op, r),
    {
        match self {
            Extended::Extension(e) => e.execute(ctx, op),
            Extended::Parent(c) => c.execute(ctx, op),
        }
    }
}

/// The extended instruction set: the core set, plus `ZERO`, debugging
/// (`DBG`), raw number input (`RIN`), function `CALL` and return (`RET`),
/// and `NOP`.
#[derive(Debug, Clone, Copy, PartialEq, Eq)]
pub enum Extended {
    Extension(ExtInst),
    Parent(Core),
}

/// The instruction set used when none is named.
pub type DefaultSet = Extended;

impl InstSet for Extended {
    open spec fn spec_id(&self) -> u64 {
        match *self {
            Extended::Extension(e) => e.spec_id(),
            Extended::Parent(c) => (FIRST_PARENT_ID + c.spec_id()) as u64,
        }
    }

    open spec fn spec_name(&self) -> Seq<char> {
        match *self {
            Extended::Extension(e) => e.spec_name(),
            Extended::Parent(c) => c.spec_name(),
        }
    }

    open spec fn exec_post(&self, old: Context, new: Context, op: Op, r: RtResult<()>) -> bool {
        extended_post(*self, old, new, op, r)
    }

    fn from_name(name: &str) -> (r: Option<Extended>) {
        let cs = chars_of(name);
        match ExtInst::lookup(cs.as_slice()) {
            Some(e) => Some(Extended::Extension(e)),
            None => match Core::lookup(cs.as_slice()) {
                Some(c) => Some(Extended::Parent(c)),
                None => {
                    proof {
                        assert forall|i: Extended| upper_seq(#[trigger] i.spec_name()) != upper_seq(name@) by {
                            match i {
                                Extended::Extension(e) => assert(upper_seq(e.spec_name()) != upper_seq(cs@)),
                                Extended::Parent(c) => assert(upper_seq(c.spec_name()) != upper_seq(cs@)),
                            }
                        }
                    }
                    None
                },
            },
        }
    }

    fn id(&self) -> (r: u64) {
        match self {
            Extended::Extension(e) => e.id(),
            Extended::Parent(c) => FIRST_PARENT_ID + InstSet::id(c),
        }
    }

    fn from_id(id: u64) -> (r: Option<Extended>) {
        if id >= FIRST_PARENT_ID {
            match Core::with_id(id - FIRST_PARENT_ID) {
                Some(c) => Some(Extended::Parent(c)),
                None => {
                    proof {
                        assert forall|i: Extended| #[trigger] i.spec_id() != id by {
                            match i {
                                Extended::Extension(e) => assert(e.spec_id() < FIRST_PARENT_ID),
                                Extended::Parent(c) => assert(c.spec_id() < CORE_COUNT),
                            }
                        }
                    }
                    None
                },
            }
        } else {
            match ExtInst::with_id(id) {
                Some(e) => Some(Extended::Extension(e)),
                None => None,
            }
        }
    }

    fn name(&self) -> (r: String) {
        match self {
            Extended::Extension(e) => e.mnemonic().to_owned(),
            Extended::Parent(c) => c.mnemonic().to_owned(),
        }
    }

    fn exec(&self, ctx: &mut Context, op: &Op) -> (r: RtResult<()>) {
        self.execute(ctx, op)
    }
}

} // verus!
