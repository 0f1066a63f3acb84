//! The linker: resolves every label and address that operands name to a
//! concrete address, gives instructions their positional addresses, and
//! places labelled memory cells at the lowest free addresses.

use std::collections::BTreeSet;
use vstd::prelude::*;

use crate::inst::Op;
use crate::inst_set::{InstIr, InstSet};
use crate::lexer::{ErrorKind, Span};
use crate::parser::{Addr, Inst, Mem, MemIr, ParseError};
use crate::text::radix_spec;

verus! {

broadcast use vstd::laws_cmp::group_laws_cmp, vstd::std_specs::btree::group_btree_axioms,
    vstd::std_specs::vec::group_vec_axioms;

/// A name an operand can refer to: a label or a bare number.
#[derive(Debug)]
pub enum Symbol {
    Label(String),
    Addr(usize),
}

/// Two symbols name the same thing.
pub open spec fn same_symbol(a: Symbol, b: Symbol) -> bool {
    match (a, b) {
        (Symbol::Label(x), Symbol::Label(y)) => x@ == y@,
        (Symbol::Addr(x), Symbol::Addr(y)) => x == y,
        _ => false,
    }
}

/// The symbol an operand leaf names: an address or an unresolved label,
/// possibly behind indirections.
pub open spec fn op_symbol(op: Op) -> Option<Symbol>
    decreases op,
{
    match op {
        Op::Addr(a) => Some(Symbol::Addr(a)),
        Op::Fail(s) => Some(Symbol::Label(s)),
        Op::Indirect(inner) => op_symbol(*inner),
        _ => None,
    }
}

impl Symbol {
    /// Whether two symbols name the same thing.
    pub fn same(&self, other: &Symbol) -> (r: bool)
        ensures
            r == same_symbol(*self, *other),
    {
        match (self, other) {
            (Symbol::Label(x), Symbol::Label(y)) => x.eq(y),
            (Symbol::Addr(x), Symbol::Addr(y)) => *x == *y,
            _ => false,
        }
    }

    /// The symbol an operand names, if any.
    pub fn try_from_op(op: &Op) -> (r: Option<Symbol>)
        ensures
            r == op_symbol(*op),
        decreases op,
    {
        match op {
            Op::Addr(a) => Some(Symbol::Addr(*a)),
            Op::Fail(s) => Some(Symbol::Label(s.clone())),
            Op::Indirect(inner) => Symbol::try_from_op(inner),
            _ => None,
        }
    }

    /// A copy of the symbol.
    pub fn copy(&self) -> (r: Symbol)
        ensures
            r == *self,
    {
        match self {
            Symbol::Label(l) => Symbol::Label(l.clone()),
            Symbol::Addr(n) => Symbol::Addr(*n),
        }
    }

    /// The symbol a line's address declares.
    pub fn from_addr(a: &Addr) -> (r: Symbol)
        ensures
            match *a {
                Addr::Bare(n) => r == Symbol::Addr(n),
                Addr::Label(l) => r == Symbol::Label(l),
            },
    {
        match a {
            Addr::Bare(n) => Symbol::Addr(*n),
            Addr::Label(l) => Symbol::Label(l.clone()),
        }
    }

    /// The symbol as it appears in the source.
    pub fn text(&self) -> (r: String)
        ensures
            match *self {
                Symbol::Label(l) => r@ == l@,
                Symbol::Addr(n) => r@ == crate::text::radix_spec(n as nat, 10),
            },
    {
        match self {
            Symbol::Label(l) => l.clone(),
            Symbol::Addr(n) => {
                let d = crate::text::radix_digits(*n as u128, 10);
                crate::text::string_from_chars(d.as_slice())
            },
        }
    }
}

/// Where a symbol is defined: an instruction's position or a memory address.
#[derive(Debug, Clone, Copy, PartialEq, Eq)]
pub enum Src {
    Prog(usize),
    Mem(usize),
}

impl Src {
    pub open spec fn spec_addr(self) -> usize {
        match self {
            Src::Prog(a) => a,
            Src::Mem(a) => a,
        }
    }

    /// The address the symbol resolves to.
    pub fn addr(&self) -> (r: usize)
        ensures
            r == self.spec_addr(),
    {
        match self {
            Src::Prog(a) => *a,
            Src::Mem(a) => *a,
        }
    }
}

/// A use of a symbol: the instruction, and the slot within a multi-operand.
#[derive(Debug, Clone, Copy, PartialEq, Eq)]
pub enum Instance {
    MultiOp(usize, usize),
    Single(usize),
}

/// What is known of a symbol: where it is defined and where it is used.
#[derive(Debug)]
pub struct SymbolData {
    pub source: Option<Src>,
    pub instances: Vec<Instance>,
}

/// Every symbol used by an operand, with its definition once known.
#[derive(Debug)]
pub struct SymbolTable {
    pub entries: Vec<(Symbol, SymbolData)>,
}

impl SymbolTable {
    /// No symbol appears twice.
    pub open spec fn wf(&self) -> bool {
        forall|i: int, j: int|
            0 <= i < j < self.entries@.len() ==> !same_symbol(
                (#[trigger] self.entries@[i]).0,
                (#[trigger] self.entries@[j]).0,
            )
    }

    /// The symbol has an entry.
    pub open spec fn has(&self, s: Symbol) -> bool {
        exists|i: int| 0 <= i < self.entries@.len() && same_symbol(#[trigger] self.entries@[i].0, s)
    }

    /// The address the symbol resolves to, if it has a definition.
    pub open spec fn resolves(&self, s: Symbol, a: usize) -> bool {
        exists|i: int|
            0 <= i < self.entries@.len() && same_symbol(#[trigger] self.entries@[i].0, s)
                && self.entries@[i].1.source is Some && self.entries@[i].1.source->Some_0.spec_addr() == a
    }

    pub fn new() -> (r: SymbolTable)
        ensures
            r.wf(),
            r.entries@.len() == 0,
    {
        SymbolTable { entries: Vec::new() }
    }

    /// The index of a symbol's entry.
    pub fn find(&self, s: &Symbol) -> (r: Option<usize>)
        ensures
            match r {
                Some(i) => i < self.entries@.len() && same_symbol(self.entries@[i as int].0, *s),
                None => !self.has(*s),
            },
    {
        let mut i: usize = 0;
        while i < self.entries.len()
            invariant
                i <= self.entries@.len(),
                forall|j: int| 0 <= j < i ==> !same_symbol(#[trigger] self.entries@[j].0, *s),
            decreases self.entries.len() - i,
        {
            if self.entries[i].0.same(s) {
                return Some(i);
            }
            i += 1;
        }
        None
    }

    /// Records a use of a symbol.
    pub fn add_instance(&mut self, s: Symbol, inst: Instance)
        requires
            old(self).wf(),
        ensures
            final(self).wf(),
            final(self).has(s),
            exists|i: int|
                0 <= i < final(self).entries@.len() && same_symbol(#[trigger] final(self).entries@[i].0, s)
                    && final(self).entries@[i].1.instances@.contains(inst),
            forall|t: Symbol| old(self).has(t) ==> final(self).has(t),
            forall|t: Symbol, a: usize| old(self).resolves(t, a) <==> final(self).resolves(t, a),
    {
        match self.find(&s) {
            Some(i) => {
                self.entries[i].1.instances.push(inst);
                proof {
                    assert(final(self).entries@[i as int].0 == old(self).entries@[i as int].0);
                    assert forall|t: Symbol, a: usize| old(self).resolves(t, a) <==> final(self).resolves(t, a) by {
                        if old(self).resolves(t, a) {
                            let k = choose|k: int| 0 <= k < old(self).entries@.len() && same_symbol(#[trigger] old(self).entries@[k].0, t)
                                && old(self).entries@[k].1.source is Some && old(self).entries@[k].1.source->Some_0.spec_addr() == a;
                            assert(same_symbol(final(self).entries@[k].0, t));
                        }
                        if final(self).resolves(t, a) {
                            let k = choose|k: int| 0 <= k < final(self).entries@.len() && same_symbol(#[trigger] final(self).entries@[k].0, t)
                                && final(self).entries@[k].1.source is Some && final(self).entries@[k].1.source->Some_0.spec_addr() == a;
                            assert(same_symbol(old(self).entries@[k].0, t));
                        }
                    }
                    assert forall|t: Symbol| old(self).has(t) implies final(self).has(t) by {
                        let k = choose|k: int| 0 <= k < old(self).entries@.len() && same_symbol(#[trigger] old(self).entries@[k].0, t);
                        assert(same_symbol(final(self).entries@[k].0, t));
                    }
                    assert(same_symbol(final(self).entries@[i as int].0, s));
                    let ins = final(self).entries@[i as int].1.instances@;
                    assert(ins[ins.len() - 1] == inst);
                }
            },
            None => {
                let mut instances = Vec::new();
                instances.push(inst);
                let ghost s0 = s;
                self.entries.push((s, SymbolData { source: None, instances }));
                proof {
                    let n = old(self).entries@.len() as int;
                    assert(final(self).entries@[n].0 == s0);
                    lemma_same_symbol_refl(s0);
                    assert(final(self).entries@[n].1.instances@[0] == inst);
                    assert forall|t: Symbol| old(self).has(t) implies final(self).has(t) by {
                        let k = choose|k: int| 0 <= k < old(self).entries@.len() && same_symbol(#[trigger] old(self).entries@[k].0, t);
                        assert(final(self).entries@[k] == old(self).entries@[k]);
                    }
                    assert forall|i: int, j: int| 0 <= i < j < final(self).entries@.len() implies !same_symbol(
                        (#[trigger] final(self).entries@[i]).0, (#[trigger] final(self).entries@[j]).0) by {
                        if j == n {
                            assert(final(self).entries@[i] == old(self).entries@[i]);
                            if same_symbol(old(self).entries@[i].0, s0) {
                                assert(old(self).has(s0));
                            }
                        } else {
                            assert(final(self).entries@[i] == old(self).entries@[i]);
                            assert(final(self).entries@[j] == old(self).entries@[j]);
                        }
                    }
                    assert forall|t: Symbol, a: usize| old(self).resolves(t, a) <==> final(self).resolves(t, a) by {
                        if old(self).resolves(t, a) {
                            let k = choose|k: int| 0 <= k < old(self).entries@.len() && same_symbol(#[trigger] old(self).entries@[k].0, t)
                                && old(self).entries@[k].1.source is Some && old(self).entries@[k].1.source->Some_0.spec_addr() == a;
                            assert(final(self).entries@[k] == old(self).entries@[k]);
                        }
                        if final(self).resolves(t, a) {
                            let k = choose|k: int| 0 <= k < final(self).entries@.len() && same_symbol(#[trigger] final(self).entries@[k].0, t)
                                && final(self).entries@[k].1.source is Some && final(self).entries@[k].1.source->Some_0.spec_addr() == a;
                            assert(k != n);
                            assert(final(self).entries@[k] == old(self).entries@[k]);
                        }
                    }
                }
            },
        }
    }
}

impl SymbolTable {
    /// The symbol has an entry without a definition.
    pub open spec fn undefined(&self, s: Symbol) -> bool {
        exists|i: int|
            0 <= i < self.entries@.len() && same_symbol(#[trigger] self.entries@[i].0, s)
                && self.entries@[i].1.source is None
    }

    /// The symbol has a definition.
    pub open spec fn has_source(&self, s: Symbol) -> bool {
        exists|i: int|
            0 <= i < self.entries@.len() && same_symbol(#[trigger] self.entries@[i].0, s)
                && self.entries@[i].1.source is Some
    }

    /// Records where a symbol is defined; a symbol defined before is
    /// refused, whether or not an operand uses it.
    pub fn add_src(&mut self, s: &Symbol, src: Src) -> (r: bool)
        requires
            old(self).wf(),
        ensures
            final(self).wf(),
            r == !old(self).has_source(*s),
            !r ==> final(self).entries@ == old(self).entries@,
            r ==> final(self).resolves(*s, src.spec_addr()) && !final(self).undefined(*s),
            r ==> forall|a: usize| #[trigger] final(self).resolves(*s, a) ==> a == src.spec_addr(),
            forall|t: Symbol, a: usize|
                !same_symbol(t, *s) ==> (#[trigger] final(self).resolves(t, a) <==> old(self).resolves(t, a)),
            forall|t: Symbol| !same_symbol(t, *s) ==> (#[trigger] final(self).undefined(t) <==> old(self).undefined(t)),
            forall|t: Symbol| #[trigger] old(self).has(t) ==> final(self).has(t),
    {
        match self.find(s) {
            Some(i) => {
                if self.entries[i].1.source.is_some() {
                    return false;
                }
                self.entries[i].1.source = Some(src);
                proof {
                    let o = old(self).entries@;
                    let f = final(self).entries@;
                    assert(forall|k: int| 0 <= k < f.len() ==> (#[trigger] f[k]).0 == o[k].0);
                    assert(forall|k: int| 0 <= k < f.len() && k != i ==> (#[trigger] f[k]) == o[k]);
                    assert(same_symbol(f[i as int].0, *s));
                    assert forall|k: int| 0 <= k < f.len() && same_symbol(#[trigger] f[k].0, *s) implies k == i by {
                        if k != i {
                            lemma_same_symbol_sym_trans(o[k].0, *s, o[i as int].0);
                            if k > i {
                                lemma_same_symbol_sym(o[k].0, o[i as int].0);
                            }
                        }
                    }
                    assert(!old(self).has_source(*s)) by {
                        if old(self).has_source(*s) {
                            let k = choose|k: int| 0 <= k < o.len() && same_symbol(#[trigger] o[k].0, *s) && o[k].1.source is Some;
                        }
                    }
                    assert forall|t: Symbol| #[trigger] old(self).has(t) implies final(self).has(t) by {
                        let k = choose|k: int| 0 <= k < o.len() && same_symbol(#[trigger] o[k].0, t);
                        assert(same_symbol(f[k].0, t));
                    }
                    assert forall|t: Symbol, a: usize| !same_symbol(t, *s) implies (#[trigger] final(self).resolves(t, a)
                        <==> old(self).resolves(t, a)) by {
                        assert forall|k: int| 0 <= k < f.len() && same_symbol(#[trigger] f[k].0, t) implies k != i by {
                            if k == i {
                                lemma_same_symbol_sym(f[k].0, t);
                                lemma_same_symbol_sym_trans(t, f[k].0, *s);
                            }
                        }
                        if old(self).resolves(t, a) {
                            let k = choose|k: int| 0 <= k < o.len() && same_symbol(#[trigger] o[k].0, t)
                                && o[k].1.source is Some && o[k].1.source->Some_0.spec_addr() == a;
                            assert(f[k] == o[k]);
                        }
                        if final(self).resolves(t, a) {
                            let k = choose|k: int| 0 <= k < f.len() && same_symbol(#[trigger] f[k].0, t)
                                && f[k].1.source is Some && f[k].1.source->Some_0.spec_addr() == a;
                            assert(f[k] == o[k]);
                        }
                    }
                    assert forall|t: Symbol| !same_symbol(t, *s) implies (#[trigger] final(self).undefined(t) <==> old(self).undefined(t)) by {
                        assert forall|k: int| 0 <= k < f.len() && same_symbol(#[trigger] f[k].0, t) implies k != i by {
                            if k == i {
                                lemma_same_symbol_sym(f[k].0, t);
                                lemma_same_symbol_sym_trans(t, f[k].0, *s);
                            }
                        }
                        if old(self).undefined(t) {
                            let k = choose|k: int| 0 <= k < o.len() && same_symbol(#[trigger] o[k].0, t) && o[k].1.source is None;
                            assert(f[k] == o[k]);
                        }
                        if final(self).undefined(t) {
                            let k = choose|k: int| 0 <= k < f.len() && same_symbol(#[trigger] f[k].0, t) && f[k].1.source is None;
                            assert(f[k] == o[k]);
                        }
                    }
                    assert forall|a: usize| #[trigger] final(self).resolves(*s, a) implies a == src.spec_addr() by {
                        let k = choose|k: int| 0 <= k < f.len() && same_symbol(#[trigger] f[k].0, *s)
                            && f[k].1.source is Some && f[k].1.source->Some_0.spec_addr() == a;
                    }
                    assert(!final(self).undefined(*s)) by {
                        if final(self).undefined(*s) {
                            let k = choose|k: int| 0 <= k < f.len() && same_symbol(#[trigger] f[k].0, *s) && f[k].1.source is None;
                        }
                    }
                    assert forall|a: int, b: int| 0 <= a < b < f.len() implies !same_symbol(
                        (#[trigger] f[a]).0, (#[trigger] f[b]).0) by {
                        assert(f[a].0 == o[a].0 && f[b].0 == o[b].0);
                    }
                }
                true
            },
            None => {
                let c = s.copy();
                let ghost n = self.entries@.len() as int;
                self.entries.push((c, SymbolData { source: Some(src), instances: Vec::new() }));
                proof {
                    let o = old(self).entries@;
                    let f = final(self).entries@;
                    assert(f[n].0 == *s);
                    lemma_same_symbol_refl(*s);
                    assert(forall|k: int| 0 <= k < n ==> (#[trigger] f[k]) == o[k]);
                    assert(!old(self).has_source(*s)) by {
                        if old(self).has_source(*s) {
                            let k = choose|k: int| 0 <= k < o.len() && same_symbol(#[trigger] o[k].0, *s) && o[k].1.source is Some;
                        }
                    }
                    assert forall|k: int| 0 <= k < f.len() && same_symbol(#[trigger] f[k].0, *s) implies k == n by {
                        if k < n {
                            assert(old(self).has(*s));
                        }
                    }
                    assert forall|t: Symbol| #[trigger] old(self).has(t) implies final(self).has(t) by {
                        let k = choose|k: int| 0 <= k < o.len() && same_symbol(#[trigger] o[k].0, t);
                        assert(f[k] == o[k]);
                    }
                    assert forall|a: int, b: int| 0 <= a < b < f.len() implies !same_symbol(
                        (#[trigger] f[a]).0, (#[trigger] f[b]).0) by {
                        if b == n {
                            if same_symbol(o[a].0, *s) {
                                assert(old(self).has(*s));
                            }
                        }
                    }
                    assert forall|t: Symbol, a: usize| !same_symbol(t, *s) implies (#[trigger] final(self).resolves(t, a)
                        <==> old(self).resolves(t, a)) by {
                        if old(self).resolves(t, a) {
                            let k = choose|k: int| 0 <= k < o.len() && same_symbol(#[trigger] o[k].0, t)
                                && o[k].1.source is Some && o[k].1.source->Some_0.spec_addr() == a;
                            assert(f[k] == o[k]);
                        }
                        if final(self).resolves(t, a) {
                            let k = choose|k: int| 0 <= k < f.len() && same_symbol(#[trigger] f[k].0, t)
                                && f[k].1.source is Some && f[k].1.source->Some_0.spec_addr() == a;
                            if k == n {
                                lemma_same_symbol_sym(f[k].0, t);
                            }
                            assert(f[k] == o[k]);
                        }
                    }
                    assert forall|t: Symbol| !same_symbol(t, *s) implies (#[trigger] final(self).undefined(t) <==> old(self).undefined(t)) by {
                        if old(self).undefined(t) {
                            let k = choose|k: int| 0 <= k < o.len() && same_symbol(#[trigger] o[k].0, t) && o[k].1.source is None;
                            assert(f[k] == o[k]);
                        }
                        if final(self).undefined(t) {
                            let k = choose|k: int| 0 <= k < f.len() && same_symbol(#[trigger] f[k].0, t) && f[k].1.source is None;
                            assert(f[k] == o[k]);
                        }
                    }
                    assert forall|a: usize| #[trigger] final(self).resolves(*s, a) implies a == src.spec_addr() by {
                        let k = choose|k: int| 0 <= k < f.len() && same_symbol(#[trigger] f[k].0, *s)
                            && f[k].1.source is Some && f[k].1.source->Some_0.spec_addr() == a;
                    }
                    assert(!final(self).undefined(*s)) by {
                        if final(self).undefined(*s) {
                            let k = choose|k: int| 0 <= k < f.len() && same_symbol(#[trigger] f[k].0, *s) && f[k].1.source is None;
                        }
                    }
                }
                true
            },
        }
    }

    /// The definition of a symbol, if it has one.
    pub fn source_of(&self, s: &Symbol) -> (r: Option<Src>)
        requires
            self.wf(),
        ensures
            r is Some ==> self.resolves(*s, r->Some_0.spec_addr()),
            r is None ==> !self.has(*s) || self.undefined(*s),
    {
        match self.find(s) {
            Some(i) => self.entries[i].1.source,
            None => None,
        }
    }
}

/// `new` is `old` with every address and label in it replaced by the
/// address the table resolves it to; everything else is kept.
pub open spec fn resolved(t: SymbolTable, old: Op, new: Op) -> bool
    decreases old,
{
    match old {
        Op::Addr(_) => new is Addr && t.resolves(op_symbol(old)->Some_0, new->Addr_0),
        Op::Fail(_) => new is Addr && t.resolves(op_symbol(old)->Some_0, new->Addr_0),
        Op::Indirect(i) => new is Indirect && resolved(t, *i, *new->Indirect_0),
        Op::MultiOp(v) => new is MultiOp && new->MultiOp_0@.len() == v@.len() && forall|k: int|
            0 <= k < v@.len() ==> resolved(t, #[trigger] v@[k], new->MultiOp_0@[k]),
        _ => new == old,
    }
}

/// `new` is `old` with every address and label in it replaced by the address
/// it is defined at; everything else is kept.
pub open spec fn resolved_by<I>(prog: Seq<Inst<I>>, mem: Seq<Mem>, addrs: Seq<usize>, old: Op, new: Op) -> bool
    decreases old,
{
    match old {
        Op::Addr(_) => new is Addr && defines(prog, mem, addrs, op_symbol(old)->Some_0, new->Addr_0),
        Op::Fail(_) => new is Addr && defines(prog, mem, addrs, op_symbol(old)->Some_0, new->Addr_0),
        Op::Indirect(i) => new is Indirect && resolved_by(prog, mem, addrs, *i, *new->Indirect_0),
        Op::MultiOp(v) => new is MultiOp && new->MultiOp_0@.len() == v@.len() && forall|k: int|
            0 <= k < v@.len() ==> resolved_by(prog, mem, addrs, #[trigger] v@[k], new->MultiOp_0@[k]),
        _ => new == old,
    }
}

/// The operand names the symbol, possibly behind indirections or in a slot.
pub open spec fn op_uses(op: Op, s: Symbol) -> bool
    decreases op,
{
    match op {
        Op::Addr(_) => same_symbol(op_symbol(op)->Some_0, s),
        Op::Fail(_) => same_symbol(op_symbol(op)->Some_0, s),
        Op::Indirect(i) => op_uses(*i, s),
        Op::MultiOp(v) => exists|k: int| 0 <= k < v@.len() && op_uses(#[trigger] v@[k], s),
        _ => false,
    }
}

proof fn lemma_uses_slot(op: Op, s: Symbol)
    requires
        op is MultiOp,
        op_uses(op, s),
    ensures
        exists|k: int| 0 <= k < op->MultiOp_0@.len() && #[trigger] op_uses(op->MultiOp_0@[k], s),
{
    match op {
        Op::MultiOp(v) => {
            assert(op_uses(op, s) == (exists|k: int| 0 <= k < v@.len() && op_uses(#[trigger] v@[k], s)));
        },
        _ => {},
    }
}

proof fn lemma_resolved_defs<I>(t: SymbolTable, prog: Seq<Inst<I>>, mem: Seq<Mem>, addrs: Seq<usize>, old: Op, new: Op)
    requires
        resolved(t, old, new),
        forall|s: Symbol, a: usize| #[trigger] t.resolves(s, a) ==> defines(prog, mem, addrs, s, a),
    ensures
        resolved_by(prog, mem, addrs, old, new),
    decreases old,
{
    match old {
        Op::Indirect(i) => lemma_resolved_defs(t, prog, mem, addrs, *i, *new->Indirect_0),
        Op::MultiOp(v) => {
            assert forall|k: int| 0 <= k < v@.len() implies resolved_by(prog, mem, addrs, #[trigger] v@[k], new->MultiOp_0@[k]) by {
                lemma_resolved_defs(t, prog, mem, addrs, v@[k], new->MultiOp_0@[k]);
            }
        },
        _ => {},
    }
}

/// Every address and label in the operand has an entry in the table.
pub open spec fn symbols_in(t: SymbolTable, op: Op) -> bool
    decreases op,
{
    match op {
        Op::Addr(_) => t.has(op_symbol(op)->Some_0),
        Op::Fail(_) => t.has(op_symbol(op)->Some_0),
        Op::Indirect(i) => symbols_in(t, *i),
        Op::MultiOp(v) => forall|k: int| 0 <= k < v@.len() ==> symbols_in(t, #[trigger] v@[k]),
        _ => true,
    }
}

/// A resolved operand holds no unresolved label.
pub proof fn lemma_resolved_no_fail(t: SymbolTable, old: Op, new: Op)
    requires
        resolved(t, old, new),
    ensures
        !new.has_fail(),
    decreases old,
{
    match old {
        Op::Indirect(i) => lemma_resolved_no_fail(t, *i, *new->Indirect_0),
        Op::MultiOp(v) => {
            assert forall|k: int| 0 <= k < new->MultiOp_0@.len() implies !(
            #[trigger] new->MultiOp_0@[k]).has_fail() by {
                lemma_resolved_no_fail(t, v@[k], new->MultiOp_0@[k]);
            }
        },
        _ => {},
    }
}

proof fn lemma_symbols_in_mono(t1: SymbolTable, t2: SymbolTable, op: Op)
    requires
        symbols_in(t1, op),
        forall|s: Symbol| t1.has(s) ==> t2.has(s),
    ensures
        symbols_in(t2, op),
    decreases op,
{
    match op {
        Op::Indirect(i) => lemma_symbols_in_mono(t1, t2, *i),
        Op::MultiOp(v) => {
            assert forall|k: int| 0 <= k < v@.len() implies symbols_in(t2, #[trigger] v@[k]) by {
                lemma_symbols_in_mono(t1, t2, v@[k]);
            }
        },
        _ => {},
    }
}

proof fn lemma_resolved_same_table(t1: SymbolTable, t2: SymbolTable, old: Op, new: Op)
    requires
        resolved(t1, old, new),
        forall|s: Symbol, a: usize| t1.resolves(s, a) ==> t2.resolves(s, a),
    ensures
        resolved(t2, old, new),
    decreases old,
{
    match old {
        Op::Indirect(i) => lemma_resolved_same_table(t1, t2, *i, *new->Indirect_0),
        Op::MultiOp(v) => {
            assert forall|k: int| 0 <= k < v@.len() implies resolved(t2, #[trigger] v@[k], new->MultiOp_0@[k]) by {
                lemma_resolved_same_table(t1, t2, v@[k], new->MultiOp_0@[k]);
            }
        },
        _ => {},
    }
}

/// Records every symbol the operand uses as used by instruction `idx`.
pub fn collect_symbols(t: &mut SymbolTable, op: &Op, idx: usize, slot: Option<usize>)
    requires
        old(t).wf(),
    ensures
        final(t).wf(),
        symbols_in(*final(t), *op),
        forall|s: Symbol| old(t).has(s) ==> final(t).has(s),
        forall|s: Symbol, a: usize| old(t).resolves(s, a) <==> final(t).resolves(s, a),
    decreases op,
{
    match op {
        Op::Addr(_) | Op::Fail(_) => {
            match Symbol::try_from_op(op) {
                Some(s) => {
                    let inst = match slot {
                        Some(k) => Instance::MultiOp(idx, k),
                        None => Instance::Single(idx),
                    };
                    t.add_instance(s, inst);
                },
                None => {},
            }
        },
        Op::Indirect(i) => collect_symbols(t, i, idx, slot),
        Op::MultiOp(v) => {
            let mut k: usize = 0;
            while k < v.len()
                invariant
                    k <= v@.len(),
                    *op is MultiOp && op->MultiOp_0 == *v,
                    t.wf(),
                    forall|j: int| 0 <= j < k ==> symbols_in(*t, #[trigger] v@[j]),
                    forall|s: Symbol| old(t).has(s) ==> t.has(s),
                    forall|s: Symbol, a: usize| old(t).resolves(s, a) <==> t.resolves(s, a),
                decreases v.len() - k,
            {
                let ghost before = *t;
                collect_symbols(t, &v[k], idx, Some(k));
                proof {
                    assert forall|j: int| 0 <= j < k + 1 implies symbols_in(*t, #[trigger] v@[j]) by {
                        if j < k {
                            lemma_symbols_in_mono(before, *t, v@[j]);
                        }
                    }
                }
                k += 1;
            }
        },
        _ => {},
    }
}

/// Replaces every address and label in an operand by its definition; a
/// symbol without one is returned as the error.
pub fn resolve(op: &Op, t: &SymbolTable) -> (r: Result<Op, Symbol>)
    requires
        t.wf(),
    ensures
        r is Ok ==> resolved(*t, *op, r->Ok_0),
        r is Err ==> forall|a: usize| !t.resolves(r->Err_0, a),
        r is Err ==> op_uses(*op, r->Err_0),
    decreases op,
{
    match op {
        Op::Addr(_) | Op::Fail(_) => {
            match Symbol::try_from_op(op) {
                Some(s) => match t.source_of(&s) {
                    Some(src) => Ok(Op::Addr(src.addr())),
                    None => {
                        proof {
                            lemma_same_symbol_refl(s);
                            assert forall|a: usize| !t.resolves(s, a) by {
                                if t.resolves(s, a) {
                                    let k = choose|k: int| 0 <= k < t.entries@.len() && same_symbol(#[trigger] t.entries@[k].0, s)
                                        && t.entries@[k].1.source is Some && t.entries@[k].1.source->Some_0.spec_addr() == a;
                                    if t.undefined(s) {
                                        let j = choose|j: int| 0 <= j < t.entries@.len() && same_symbol(#[trigger] t.entries@[j].0, s)
                                            && t.entries@[j].1.source is None;
                                        lemma_same_symbol_sym(t.entries@[j].0, s);
                                        lemma_same_symbol_sym_trans(t.entries@[k].0, s, t.entries@[j].0);
                                        if j < k {
                                            lemma_same_symbol_sym(t.entries@[k].0, t.entries@[j].0);
                                        }
                                    } else {
                                        assert(t.has(s));
                                    }
                                }
                            }
                        }
                        Err(s)
                    },
                },
                None => Ok(Op::Null),
            }
        },
        Op::Indirect(i) => match resolve(i, t) {
            Ok(x) => Ok(Op::Indirect(Box::new(x))),
            Err(s) => Err(s),
        },
        Op::MultiOp(v) => {
            let mut out: Vec<Op> = Vec::new();
            let mut k: usize = 0;
            while k < v.len()
                invariant
                    k <= v@.len(),
                    *op is MultiOp && op->MultiOp_0 == *v,
                    t.wf(),
                    out@.len() == k,
                    forall|j: int| 0 <= j < k ==> resolved(*t, #[trigger] v@[j], out@[j]),
                decreases v.len() - k,
            {
                match resolve(&v[k], t) {
                    Ok(x) => out.push(x),
                    Err(s) => {
                        proof {
                            assert(op_uses(v@[k as int], s));
                        }
                        return Err(s);
                    },
                }
                k += 1;
            }
            Ok(Op::MultiOp(out))
        },
        Op::Acc => Ok(Op::Acc),
        Op::Ix => Ok(Op::Ix),
        Op::Cmp => Ok(Op::Cmp),
        Op::Ar => Ok(Op::Ar),
        Op::Literal(x) => Ok(Op::Literal(*x)),
        Op::Gpr(n) => Ok(Op::Gpr(*n)),
        Op::Null => Ok(Op::Null),
    }
}

/// The addresses given to the labelled cells among the first `n`, in order.
pub open spec fn labelled_addrs(mem: Seq<Mem>, addrs: Seq<usize>, n: int) -> Seq<usize>
    decreases n,
{
    if n <= 0 {
        Seq::empty()
    } else if mem[n - 1].addr is Label {
        labelled_addrs(mem, addrs, n - 1).push(addrs[n - 1])
    } else {
        labelled_addrs(mem, addrs, n - 1)
    }
}

/// `s` lists, in increasing order, the lowest addresses that `used` leaves
/// free: each is free, and every free address below one of them is an
/// earlier one.
pub open spec fn lowest_free(used: Set<usize>, s: Seq<usize>) -> bool {
    &&& forall|k: int| 0 <= k < s.len() ==> !used.contains(#[trigger] s[k])
    &&& forall|j: int, k: int| 0 <= j < k < s.len() ==> (#[trigger] s[j]) < (#[trigger] s[k])
    &&& forall|k: int, a: usize|
        #![trigger s[k], used.contains(a)]
        0 <= k < s.len() && a < s[k] && !used.contains(a) ==> exists|j: int|
            0 <= j < k && s[j] == a
}

/// Addresses for every memory cell: a bare cell keeps its own, and the
/// labelled cells take the lowest addresses that no bare cell uses, in
/// order. Fails when the free addresses run out, with the addresses given
/// so far; by then every free address has been given out.
pub fn readdress(mem: &[Mem], used: &BTreeSet<usize>) -> (r: Result<Vec<usize>, Vec<usize>>)
    ensures
        match r {
            Ok(addrs) => addrs@.len() == mem@.len() && (forall|k: int|
                0 <= k < mem@.len() && (#[trigger] mem@[k]).addr is Bare ==> addrs@[k]
                    == mem@[k].addr->Bare_0) && lowest_free(
                used@,
                labelled_addrs(mem@, addrs@, mem@.len() as int),
            ),
            Err(part) => part@.len() < mem@.len() && mem@[part@.len() as int].addr is Label
                && lowest_free(used@, labelled_addrs(mem@, part@, part@.len() as int)) && forall|a: usize|
                !used@.contains(a) ==> labelled_addrs(mem@, part@, part@.len() as int).contains(a),
        },
{
    let mut out: Vec<usize> = Vec::new();
    let mut counter: u128 = 0;
    let mut k: usize = 0;
    while k < mem.len()
        invariant
            k <= mem@.len(),
            out@.len() == k,
            counter <= usize::MAX as u128 + 1,
            forall|j: int| 0 <= j < k && (#[trigger] mem@[j]).addr is Bare ==> out@[j] == mem@[j].addr->Bare_0,
            lowest_free(used@, labelled_addrs(mem@, out@, k as int)),
            forall|j: int| 0 <= j < labelled_addrs(mem@, out@, k as int).len() ==> (#[trigger] labelled_addrs(mem@, out@, k as int)[j]) < counter,
            forall|a: usize| (a as u128) < counter && !used@.contains(a) ==> labelled_addrs(mem@, out@, k as int).contains(a),
        decreases mem.len() - k,
    {
        let ghost before = labelled_addrs(mem@, out@, k as int);
        let ghost old_out = out@;
        match &mem[k].addr {
            Addr::Bare(a) => {
                out.push(*a);
                proof {
                    lemma_labelled_addrs_ext(mem@, out@, old_out, k as int);
                    assert(labelled_addrs(mem@, out@, k + 1) == before);
                }
            },
            Addr::Label(_) => {
                let ghost start = counter;
                while counter <= usize::MAX as u128 && used.contains(&(counter as usize))
                    invariant
                        start <= counter <= usize::MAX as u128 + 1,
                        forall|a: usize| start <= (a as u128) < counter ==> used@.contains(a),
                    decreases usize::MAX as u128 + 1 - counter,
                {
                    counter += 1;
                }
                if counter > usize::MAX as u128 {
                    proof {
                        assert forall|a: usize| !used@.contains(a) implies before.contains(a) by {
                            if (a as u128) >= start {
                                assert(used@.contains(a));
                            }
                        }
                    }
                    return Err(out);
                }
                let c = counter as usize;
                out.push(c);
                counter += 1;
                proof {
                    lemma_labelled_addrs_ext(mem@, out@, old_out, k as int);
                    let now = labelled_addrs(mem@, out@, k + 1);
                    assert(now == before.push(c));
                    assert forall|j: int, i: int| 0 <= j < i < now.len() implies (#[trigger] now[j]) < (#[trigger] now[i]) by {
                        if i == now.len() - 1 {
                            assert(now[j] == before[j]);
                        } else {
                            assert(now[j] == before[j] && now[i] == before[i]);
                        }
                    }
                    assert forall|i: int, a: usize| #![trigger now[i], used@.contains(a)] 0 <= i < now.len() && a < now[i] && !used@.contains(a) implies exists|j: int| 0 <= j < i && now[j] == a by {
                        if i == now.len() - 1 {
                            if (a as u128) < start {
                                let j = choose|j: int| 0 <= j < before.len() && before[j] == a;
                                assert(now[j] == a);
                            } else {
                                assert(used@.contains(a));
                            }
                        } else {
                            assert(now[i] == before[i]);
                            let j = choose|j: int| 0 <= j < i && before[j] == a;
                            assert(now[j] == a);
                        }
                    }
                    assert forall|a: usize| (a as u128) < counter && !used@.contains(a) implies now.contains(a) by {
                        if a == c {
                            assert(now[now.len() - 1] == a);
                        } else if (a as u128) < start {
                            let j = choose|j: int| 0 <= j < before.len() && before[j] == a;
                            assert(now[j] == a);
                        } else {
                            assert(used@.contains(a));
                        }
                    }
                }
            },
        }
        k += 1;
    }
    proof {
        assert(mem@.len() == k);
    }
    Ok(out)
}

proof fn lemma_labelled_addrs_ext(mem: Seq<Mem>, a1: Seq<usize>, a2: Seq<usize>, m: int)
    requires
        0 <= m <= a1.len(),
        m <= a2.len(),
        forall|j: int| 0 <= j < m ==> a1[j] == a2[j],
    ensures
        labelled_addrs(mem, a1, m) == labelled_addrs(mem, a2, m),
    decreases m,
{
    if m > 0 {
        lemma_labelled_addrs_ext(mem, a1, a2, m - 1);
    }
}

/// The labelled addresses among the first `m` cells are a prefix of those
/// among the first `n`.
pub proof fn lemma_labelled_prefix(mem: Seq<Mem>, addrs: Seq<usize>, m: int, n: int)
    requires
        0 <= m <= n,
    ensures
        labelled_addrs(mem, addrs, m).len() <= labelled_addrs(mem, addrs, n).len(),
        labelled_addrs(mem, addrs, m) == labelled_addrs(mem, addrs, n).subrange(0, labelled_addrs(mem, addrs, m).len() as int),
    decreases n - m,
{
    if m < n {
        lemma_labelled_prefix(mem, addrs, m, n - 1);
        let a = labelled_addrs(mem, addrs, m);
        let b = labelled_addrs(mem, addrs, n - 1);
        let c = labelled_addrs(mem, addrs, n);
        assert(c.subrange(0, b.len() as int) =~= b);
        assert(c.subrange(0, a.len() as int) =~= b.subrange(0, a.len() as int));
    } else {
        assert(labelled_addrs(mem, addrs, n).subrange(0, labelled_addrs(mem, addrs, n).len() as int) =~= labelled_addrs(mem, addrs, n));
    }
}

/// A labelled cell adds its address at the end of the list.
pub proof fn lemma_labelled_position(mem: Seq<Mem>, addrs: Seq<usize>, j: int)
    requires
        0 <= j < mem.len(),
        mem[j].addr is Label,
    ensures
        labelled_addrs(mem, addrs, j + 1) == labelled_addrs(mem, addrs, j).push(addrs[j]),
{
}

/// Labelled cells get pairwise distinct addresses that no bare cell uses,
/// and bare cells, when distinct among themselves, keep theirs: no two
/// cells share an address.
proof fn lemma_cells_distinct(mem: Seq<Mem>, addrs: Seq<usize>)
    requires
        addrs.len() == mem.len(),
        forall|k: int| 0 <= k < mem.len() && (#[trigger] mem[k]).addr is Bare ==> addrs[k] == mem[k].addr->Bare_0,
        forall|j: int, k: int|
            0 <= j < k < mem.len() && (#[trigger] mem[j]).addr is Bare && (#[trigger] mem[k]).addr is Bare ==> mem[j].addr
                != mem[k].addr,
        lowest_free(bare_addrs(mem), labelled_addrs(mem, addrs, mem.len() as int)),
    ensures
        forall|j: int, k: int| 0 <= j < k < mem.len() ==> (#[trigger] addrs[j]) != (#[trigger] addrs[k]),
{
    let n = mem.len() as int;
    let all = labelled_addrs(mem, addrs, n);
    assert forall|k: int| 0 <= k < n && (#[trigger] mem[k]).addr is Label implies all.contains(addrs[k])
        && !bare_addrs(mem).contains(addrs[k]) by {
        lemma_labelled_position(mem, addrs, k);
        lemma_labelled_prefix(mem, addrs, k + 1, n);
        let p = labelled_addrs(mem, addrs, k + 1);
        assert(p[p.len() - 1] == addrs[k]);
        assert(all.subrange(0, p.len() as int)[p.len() - 1] == all[p.len() - 1]);
        assert(all[p.len() - 1] == addrs[k]);
    }
    assert forall|j: int, k: int| 0 <= j < k < n implies (#[trigger] addrs[j]) != (#[trigger] addrs[k]) by {
        if mem[j].addr is Bare && mem[k].addr is Bare {
            assert(mem[j].addr != mem[k].addr);
        } else if mem[j].addr is Bare {
            assert(bare_addrs(mem).contains(addrs[j]));
        } else if mem[k].addr is Bare {
            assert(bare_addrs(mem).contains(addrs[k]));
        } else {
            lemma_labelled_position(mem, addrs, j);
            lemma_labelled_position(mem, addrs, k);
            lemma_labelled_prefix(mem, addrs, j + 1, k);
            lemma_labelled_prefix(mem, addrs, k + 1, n);
            lemma_labelled_prefix(mem, addrs, j + 1, n);
            let pj = labelled_addrs(mem, addrs, j + 1);
            let pk = labelled_addrs(mem, addrs, k + 1);
            assert(pj[pj.len() - 1] == addrs[j]);
            assert(pk[pk.len() - 1] == addrs[k]);
            assert(all.subrange(0, pj.len() as int)[pj.len() - 1] == all[pj.len() - 1]);
            assert(all.subrange(0, pk.len() as int)[pk.len() - 1] == all[pk.len() - 1]);
            assert(all[pj.len() - 1] == addrs[j]);
            assert(all[pk.len() - 1] == addrs[k]);
            assert(pj.len() - 1 < pk.len() - 1);
        }
    }
}

/// How many labelled cells there are among the first `n`: the length of the
/// list does not depend on the addresses.
pub proof fn lemma_labelled_len(mem: Seq<Mem>, a1: Seq<usize>, a2: Seq<usize>, n: int)
    ensures
        labelled_addrs(mem, a1, n).len() == labelled_addrs(mem, a2, n).len(),
    decreases n,
{
    if n > 0 {
        lemma_labelled_len(mem, a1, a2, n - 1);
    }
}

/// The symbol an address declares.
pub open spec fn addr_symbol(a: Addr) -> Symbol {
    match a {
        Addr::Bare(n) => Symbol::Addr(n),
        Addr::Label(l) => Symbol::Label(l),
    }
}

/// The symbol definition site `j` declares: instruction `j` by its address,
/// or memory cell `j - n` for `n` instructions.
pub open spec fn site_symbol<I>(prog: Seq<Inst<I>>, mem: Seq<Mem>, j: int) -> Option<Symbol> {
    if 0 <= j < prog.len() {
        match prog[j].addr {
            Some(a) => Some(addr_symbol(a)),
            None => None,
        }
    } else if prog.len() <= j < prog.len() + mem.len() {
        Some(addr_symbol(mem[j - prog.len()].addr))
    } else {
        None
    }
}

/// The address site `j` defines its symbol at: an instruction's position, a
/// bare cell's own address, or the address a labelled cell was placed at.
pub open spec fn site_addr<I>(prog: Seq<Inst<I>>, mem: Seq<Mem>, addrs: Seq<usize>, j: int) -> usize {
    if j < prog.len() {
        j as usize
    } else {
        match mem[j - prog.len()].addr {
            Addr::Bare(n) => n,
            Addr::Label(_) => addrs[j - prog.len()],
        }
    }
}

/// Site `j` defines symbol `s`.
pub open spec fn site_defines<I>(prog: Seq<Inst<I>>, mem: Seq<Mem>, j: int, s: Symbol) -> bool {
    site_symbol(prog, mem, j) is Some && same_symbol(site_symbol(prog, mem, j)->Some_0, s)
}

/// Some symbol is defined at two sites: two instructions with one label or
/// bare number, two memory lines with one label or address, or an
/// instruction and a memory line.
pub open spec fn duplicate_defs<I>(prog: Seq<Inst<I>>, mem: Seq<Mem>) -> bool {
    exists|j1: int, j2: int, s: Symbol|
        j1 != j2 && #[trigger] site_defines(prog, mem, j1, s) && #[trigger] site_defines(prog, mem, j2, s)
}

/// `s` is defined at `a`.
pub open spec fn defines<I>(prog: Seq<Inst<I>>, mem: Seq<Mem>, addrs: Seq<usize>, s: Symbol, a: usize) -> bool {
    exists|j: int| #[trigger] site_defines(prog, mem, j, s) && site_addr(prog, mem, addrs, j) == a
}

/// The table holds exactly the definitions of the sites in `done`, and no
/// two of those define one symbol.
pub open spec fn table_of<I>(
    t: SymbolTable,
    prog: Seq<Inst<I>>,
    mem: Seq<Mem>,
    addrs: Seq<usize>,
    done: spec_fn(int) -> bool,
) -> bool {
    &&& forall|s: Symbol, a: usize| #[trigger] t.resolves(s, a) ==> exists|j: int|
        done(j) && #[trigger] site_defines(prog, mem, j, s) && site_addr(prog, mem, addrs, j) == a
    &&& forall|j: int| done(j) && #[trigger] site_symbol(prog, mem, j) is Some ==> t.resolves(
        site_symbol(prog, mem, j)->Some_0,
        site_addr(prog, mem, addrs, j),
    )
    &&& forall|j1: int, j2: int, s: Symbol|
        j1 != j2 && done(j1) && done(j2) && #[trigger] site_defines(prog, mem, j1, s) && #[trigger] site_defines(
            prog,
            mem,
            j2,
            s,
        ) ==> false
}

proof fn lemma_resolves_congr(t: SymbolTable, s1: Symbol, s2: Symbol, a: usize)
    requires
        same_symbol(s1, s2),
    ensures
        t.resolves(s1, a) <==> t.resolves(s2, a),
{
    if t.resolves(s1, a) {
        let k = choose|k: int| 0 <= k < t.entries@.len() && same_symbol(#[trigger] t.entries@[k].0, s1)
            && t.entries@[k].1.source is Some && t.entries@[k].1.source->Some_0.spec_addr() == a;
        lemma_same_symbol_sym_trans(t.entries@[k].0, s1, s2);
    }
    if t.resolves(s2, a) {
        let k = choose|k: int| 0 <= k < t.entries@.len() && same_symbol(#[trigger] t.entries@[k].0, s2)
            && t.entries@[k].1.source is Some && t.entries@[k].1.source->Some_0.spec_addr() == a;
        lemma_same_symbol_sym(s1, s2);
        lemma_same_symbol_sym_trans(t.entries@[k].0, s2, s1);
    }
}

/// Adding site `j`'s definition keeps the table exact, or, when refused,
/// shows two sites defining one symbol.
proof fn lemma_add_site<I>(
    t0: SymbolTable,
    t1: SymbolTable,
    prog: Seq<Inst<I>>,
    mem: Seq<Mem>,
    addrs: Seq<usize>,
    done0: spec_fn(int) -> bool,
    done1: spec_fn(int) -> bool,
    j: int,
    s: Symbol,
    a: usize,
    r: bool,
)
    requires
        table_of(t0, prog, mem, addrs, done0),
        !done0(j),
        forall|x: int| #[trigger] done1(x) <==> done0(x) || x == j,
        site_symbol(prog, mem, j) == Some(s),
        site_addr(prog, mem, addrs, j) == a,
        r == !t0.has_source(s),
        !r ==> t1.entries@ == t0.entries@,
        r ==> t1.resolves(s, a),
        r ==> forall|x: usize| #[trigger] t1.resolves(s, x) ==> x == a,
        forall|u: Symbol, x: usize| !same_symbol(u, s) ==> (#[trigger] t1.resolves(u, x) <==> t0.resolves(u, x)),
    ensures
        r ==> table_of(t1, prog, mem, addrs, done1),
        !r ==> duplicate_defs(prog, mem),
{
    lemma_same_symbol_refl(s);
    assert(site_defines(prog, mem, j, s));
    if !r {
        let a0 = choose|x: usize| #[trigger] t0.resolves(s, x);
        assert(t0.resolves(s, a0)) by {
            let k = choose|k: int| 0 <= k < t0.entries@.len() && same_symbol(#[trigger] t0.entries@[k].0, s)
                && t0.entries@[k].1.source is Some;
            assert(t0.resolves(s, t0.entries@[k].1.source->Some_0.spec_addr()));
        }
        let j0 = choose|x: int| done0(x) && #[trigger] site_defines(prog, mem, x, s) && site_addr(prog, mem, addrs, x) == a0;
        assert(j0 != j);
    } else {
        assert forall|u: Symbol, x: usize| #[trigger] t1.resolves(u, x) implies exists|y: int|
            done1(y) && #[trigger] site_defines(prog, mem, y, u) && site_addr(prog, mem, addrs, y) == x by {
            if same_symbol(u, s) {
                lemma_resolves_congr(t1, u, s, x);
                lemma_same_symbol_sym(u, s);
                assert(site_defines(prog, mem, j, u));
            } else {
                let y = choose|y: int| done0(y) && #[trigger] site_defines(prog, mem, y, u) && site_addr(prog, mem, addrs, y) == x;
                assert(done1(y));
            }
        }
        assert forall|y: int| done1(y) && #[trigger] site_symbol(prog, mem, y) is Some implies t1.resolves(
            site_symbol(prog, mem, y)->Some_0,
            site_addr(prog, mem, addrs, y),
        ) by {
            let u = site_symbol(prog, mem, y)->Some_0;
            if y != j {
                assert(t0.resolves(u, site_addr(prog, mem, addrs, y)));
                if same_symbol(u, s) {
                    lemma_resolves_congr(t0, u, s, site_addr(prog, mem, addrs, y));
                    assert(t0.has_source(s));
                }
            }
        }
        assert forall|j1: int, j2: int, u: Symbol|
            j1 != j2 && done1(j1) && done1(j2) && #[trigger] site_defines(prog, mem, j1, u) && #[trigger] site_defines(prog, mem, j2, u)
                implies false by {
            if j1 == j || j2 == j {
                let other = if j1 == j { j2 } else { j1 };
                let v = site_symbol(prog, mem, other)->Some_0;
                assert(t0.resolves(v, site_addr(prog, mem, addrs, other)));
                lemma_same_symbol_sym(v, u);
                lemma_same_symbol_sym(s, u);
                lemma_same_symbol_sym_trans(v, u, s);
                lemma_resolves_congr(t0, v, s, site_addr(prog, mem, addrs, other));
                assert(t0.has_source(s));
            }
        }
    }
}

/// The addresses of the bare memory cells.
pub open spec fn bare_addrs(mem: Seq<Mem>) -> Set<usize> {
    Set::new(|a: usize| exists|k: int| 0 <= k < mem.len() && (#[trigger] mem[k]).addr == Addr::Bare(a))
}

/// The address of each linked cell.
pub open spec fn addrs_of(mems: Seq<MemIr>) -> Seq<usize> {
    mems.map_values(|m: MemIr| m.addr)
}

/// The linked memory keeps each cell's data; a bare cell keeps its address,
/// the labelled cells take the lowest addresses the bare cells leave free,
/// in order; and no two cells share an address.
pub open spec fn memory_linked(mem: Seq<Mem>, mems: Seq<MemIr>) -> bool {
    &&& mems.len() == mem.len()
    &&& forall|k: int| 0 <= k < mem.len() ==> (#[trigger] mems[k]).data == mem[k].data
    &&& forall|k: int| 0 <= k < mem.len() && (#[trigger] mem[k]).addr is Bare ==> mems[k].addr == mem[k].addr->Bare_0
    &&& lowest_free(bare_addrs(mem), labelled_addrs(mem, addrs_of(mems), mem.len() as int))
    &&& forall|j: int, k: int| 0 <= j < k < mem.len() ==> (#[trigger] mems[j]).addr != (#[trigger] mems[k]).addr
}

/// A linked program: its instructions at their positions, its memory, and
/// the source labels of instructions and memory cells.
pub struct Linked<I> {
    pub insts: Vec<InstIr<I>>,
    pub mems: Vec<MemIr>,
    pub prog_labels: Vec<(usize, String)>,
    pub mem_labels: Vec<(usize, String)>,
}

/// Why linking fails: no free address is left for a labelled cell, a
/// symbol is defined at two sites, or an operand names a symbol that no site
/// defines.
pub open spec fn link_fails<I>(prog: Seq<Inst<I>>, mem: Seq<Mem>, e: ErrorKind) -> bool {
    ||| e is AddressSpaceExhausted && exists|part: Seq<usize>|
        part.len() < mem.len() && mem[part.len() as int].addr is Label && lowest_free(
            bare_addrs(mem),
            labelled_addrs(mem, part, part.len() as int),
        ) && forall|a: usize| !bare_addrs(mem).contains(a) ==> #[trigger] labelled_addrs(mem, part, part.len() as int).contains(a)
    ||| e is DuplicateSymbol && duplicate_defs(prog, mem)
    ||| e is UndefinedSymbol && exists|i: int, s: Symbol|
        0 <= i < prog.len() && #[trigger] op_uses(prog[i].op, s) && forall|j: int| !#[trigger] site_defines(prog, mem, j, s)
}

/// A link error `e` reported at `span`: why linking fails, and for an
/// undefined symbol, the span of an operand of an instruction that uses it,
/// or of that instruction's line.
pub open spec fn link_error_at<I>(prog: Seq<Inst<I>>, mem: Seq<Mem>, span: Span, e: ErrorKind) -> bool {
    &&& link_fails(prog, mem, e)
    &&& e is UndefinedSymbol ==> exists|i: int, s: Symbol|
        0 <= i < prog.len() && #[trigger] op_uses(prog[i].op, s) && (forall|j: int| !#[trigger] site_defines(prog, mem, j, s))
            && slot_span(prog[i], s, span)
}

/// `span` is the span of the operand of `inst` that uses `s`, whenever the
/// instruction has one span per operand.
pub open spec fn slot_span<I>(inst: Inst<I>, s: Symbol, span: Span) -> bool {
    match inst.op {
        Op::MultiOp(v) => inst.op_spans@.len() == v@.len() ==> exists|k: int|
            0 <= k < v@.len() && #[trigger] op_uses(v@[k], s) && span == inst.op_spans@[k],
        _ => inst.op_spans@.len() == 1 ==> span == inst.op_spans@[0],
    }
}

/// The facts collected while linking.
pub struct Linker {
    pub symbol_table: SymbolTable,
    pub used_addrs: BTreeSet<usize>,
}

impl Linker {
    pub fn new() -> (r: Linker)
        ensures
            r.symbol_table.wf(),
            r.symbol_table.entries@.len() == 0,
            r.used_addrs@ == Set::<usize>::empty(),
    {
        Linker { symbol_table: SymbolTable::new(), used_addrs: BTreeSet::new() }
    }

    /// Records every symbol an operand uses.
    pub fn find_symbols<I: InstSet>(&mut self, prog: &[Inst<I>])
        requires
            old(self).symbol_table.wf(),
        ensures
            final(self).symbol_table.wf(),
            final(self).used_addrs == old(self).used_addrs,
            forall|i: int| 0 <= i < prog@.len() ==> symbols_in(final(self).symbol_table, #[trigger] prog@[i].op),
            forall|s: Symbol, a: usize| #[trigger] final(self).symbol_table.resolves(s, a) <==> old(self).symbol_table.resolves(s, a),
    {
        let mut i: usize = 0;
        while i < prog.len()
            invariant
                i <= prog@.len(),
                self.symbol_table.wf(),
                self.used_addrs == old(self).used_addrs,
                forall|j: int| 0 <= j < i ==> symbols_in(self.symbol_table, #[trigger] prog@[j].op),
                forall|s: Symbol, a: usize| #[trigger] self.symbol_table.resolves(s, a) <==> old(self).symbol_table.resolves(s, a),
            decreases prog.len() - i,
        {
            let ghost before = self.symbol_table;
            collect_symbols(&mut self.symbol_table, &prog[i].op, i, None);
            proof {
                assert forall|j: int| 0 <= j < i + 1 implies symbols_in(self.symbol_table, #[trigger] prog@[j].op) by {
                    if j < i {
                        lemma_symbols_in_mono(before, self.symbol_table, prog@[j].op);
                    }
                }
            }
            i += 1;
        }
    }

    /// Places the memory cells (see `readdress`): records the bare cells'
    /// addresses as used, then gives the labelled cells the lowest addresses
    /// left free. Fails when the free addresses run out.
    pub fn readdress(&mut self, mem: &[Mem]) -> (r: Result<Vec<usize>, ParseError>)
        requires
            old(self).used_addrs@ == Set::<usize>::empty(),
        ensures
            final(self).symbol_table == old(self).symbol_table,
            final(self).used_addrs@ == bare_addrs(mem@),
            match r {
                Ok(addrs) => addrs@.len() == mem@.len() && (forall|k: int|
                    0 <= k < mem@.len() && (#[trigger] mem@[k]).addr is Bare ==> addrs@[k]
                        == mem@[k].addr->Bare_0) && lowest_free(
                    bare_addrs(mem@),
                    labelled_addrs(mem@, addrs@, mem@.len() as int),
                ),
                Err((_, e)) => e is AddressSpaceExhausted && exists|part: Seq<usize>|
                    part.len() < mem@.len() && mem@[part.len() as int].addr is Label && lowest_free(
                        bare_addrs(mem@),
                        labelled_addrs(mem@, part, part.len() as int),
                    ) && forall|a: usize|
                        !bare_addrs(mem@).contains(a) ==> #[trigger] labelled_addrs(mem@, part, part.len() as int).contains(a),
            },
    {
        let mut k: usize = 0;
        while k < mem.len()
            invariant
                k <= mem@.len(),
                self.symbol_table == old(self).symbol_table,
                self.used_addrs@ == Set::new(|a: usize| exists|j: int| 0 <= j < k && (#[trigger] mem@[j]).addr == Addr::Bare(a)),
            decreases mem.len() - k,
        {
            match &mem[k].addr {
                Addr::Bare(a) => {
                    self.used_addrs.insert(*a);
                },
                Addr::Label(_) => {},
            }
            proof {
                assert(self.used_addrs@ =~= Set::new(|a: usize| exists|j: int| 0 <= j < k + 1 && (#[trigger] mem@[j]).addr == Addr::Bare(a))) by {
                    assert forall|a: usize| self.used_addrs@.contains(a) implies exists|j: int| 0 <= j < k + 1 && (#[trigger] mem@[j]).addr == Addr::Bare(a) by {
                        if mem@[k as int].addr != Addr::Bare(a) {
                            let j = choose|j: int| 0 <= j < k && (#[trigger] mem@[j]).addr == Addr::Bare(a);
                        }
                    }
                }
            }
            k += 1;
        }
        proof {
            assert(self.used_addrs@ =~= bare_addrs(mem@));
        }
        match readdress(mem, &self.used_addrs) {
            Ok(addrs) => Ok(addrs),
            Err(part) => {
                let at = part.len();
                Err((mem[at].span, ErrorKind::AddressSpaceExhausted))
            },
        }
    }

    /// Records every definition: each instruction's label or bare number at
    /// its position, and each memory cell's label or address at the address
    /// it was placed at. A symbol defined twice is an error, whether or not an
    /// operand uses it.
    pub fn find_symbol_sources<I: InstSet>(&mut self, prog: &[Inst<I>], mem: &[Mem], addrs: &Vec<usize>) -> (r: Result<(), ParseError>)
        requires
            old(self).symbol_table.wf(),
            forall|s: Symbol, a: usize| !old(self).symbol_table.resolves(s, a),
            addrs@.len() == mem@.len(),
            forall|k: int| 0 <= k < mem@.len() && (#[trigger] mem@[k]).addr is Bare ==> addrs@[k] == mem@[k].addr->Bare_0,
        ensures
            final(self).symbol_table.wf(),
            final(self).used_addrs == old(self).used_addrs,
            forall|s: Symbol| #[trigger] old(self).symbol_table.has(s) ==> final(self).symbol_table.has(s),
            r is Ok ==> table_of(final(self).symbol_table, prog@, mem@, addrs@, |x: int| 0 <= x < prog@.len() + mem@.len()),
            r is Ok ==> !duplicate_defs(prog@, mem@),
            r is Err ==> r->Err_0.1 is DuplicateSymbol && duplicate_defs(prog@, mem@),
    {
        let n = prog.len();
        let m = mem.len();
        let mut j: usize = 0;
        proof {
            assert(table_of(self.symbol_table, prog@, mem@, addrs@, |x: int| 0 <= x < 0));
        }
        while j < n
            invariant
                n == prog@.len(),
                m == mem@.len(),
                j <= n,
                addrs@.len() == mem@.len(),
                self.symbol_table.wf(),
                self.used_addrs == old(self).used_addrs,
                forall|s: Symbol| #[trigger] old(self).symbol_table.has(s) ==> self.symbol_table.has(s),
                table_of(self.symbol_table, prog@, mem@, addrs@, |x: int| 0 <= x < j),
            decreases n - j,
        {
            let ghost t0 = self.symbol_table;
            let ghost done0 = |x: int| 0 <= x < j;
            let ghost done1 = |x: int| 0 <= x < j + 1;
            match &prog[j].addr {
                Some(a) => {
                    let s = Symbol::from_addr(a);
                    let ok = self.symbol_table.add_src(&s, Src::Prog(j));
                    proof {
                        lemma_add_site(t0, self.symbol_table, prog@, mem@, addrs@, done0, done1, j as int, s, j, ok);
                    }
                    if !ok {
                        return Err((prog[j].span, ErrorKind::DuplicateSymbol(s.text())));
                    }
                },
                None => {
                    proof {
                        assert(table_of(self.symbol_table, prog@, mem@, addrs@, done1));
                    }
                },
            }
            j += 1;
        }
        let mut k: usize = 0;
        while k < m
            invariant
                n == prog@.len(),
                m == mem@.len(),
                k <= m,
                addrs@.len() == mem@.len(),
                forall|q: int| 0 <= q < mem@.len() && (#[trigger] mem@[q]).addr is Bare ==> addrs@[q] == mem@[q].addr->Bare_0,
                self.symbol_table.wf(),
                self.used_addrs == old(self).used_addrs,
                forall|s: Symbol| #[trigger] old(self).symbol_table.has(s) ==> self.symbol_table.has(s),
                table_of(self.symbol_table, prog@, mem@, addrs@, |x: int| 0 <= x < n + k),
            decreases m - k,
        {
            let ghost t0 = self.symbol_table;
            let ghost done0 = |x: int| 0 <= x < n + k;
            let ghost done1 = |x: int| 0 <= x < n + k + 1;
            let s = Symbol::from_addr(&mem[k].addr);
            let ok = self.symbol_table.add_src(&s, Src::Mem(addrs[k]));
            proof {
                assert(site_addr(prog@, mem@, addrs@, n + k) == addrs@[k as int]);
                lemma_add_site(t0, self.symbol_table, prog@, mem@, addrs@, done0, done1, n + k, s, addrs@[k as int], ok);
            }
            if !ok {
                return Err((mem[k].span, ErrorKind::DuplicateSymbol(s.text())));
            }
            k += 1;
        }
        proof {
            assert(!duplicate_defs(prog@, mem@)) by {
                if duplicate_defs(prog@, mem@) {
                    let (j1, j2, u) = choose|j1: int, j2: int, u: Symbol|
                        j1 != j2 && #[trigger] site_defines(prog@, mem@, j1, u) && #[trigger] site_defines(prog@, mem@, j2, u);
                }
            }
        }
        Ok(())
    }

    /// Links a parsed program: every instruction gets its position as its
    /// address, every memory cell its address, and every address and label
    /// in an operand the address it is defined at. Errors: a symbol defined
    /// twice, a symbol never defined, or no free address left for a
    /// labelled cell.
    pub fn link<I: InstSet>(&mut self, prog: &[Inst<I>], mem: &[Mem]) -> (r: Result<Linked<I>, ParseError>)
        requires
            old(self).symbol_table.wf(),
            old(self).symbol_table.entries@.len() == 0,
            old(self).used_addrs@ == Set::<usize>::empty(),
        ensures
            match r {
                Ok(l) => {
                    &&& l.insts@.len() == prog@.len()
                    &&& forall|i: int| 0 <= i < prog@.len() ==> {
                        &&& (#[trigger] l.insts@[i]).addr == i
                        &&& l.insts@[i].inst.inst == prog@[i].opcode
                        &&& l.insts@[i].inst.id == prog@[i].opcode.spec_id()
                        &&& resolved_by(prog@, mem@, addrs_of(l.mems@), prog@[i].op, l.insts@[i].inst.op)
                        &&& !l.insts@[i].inst.op.has_fail()
                    }
                    &&& final(self).used_addrs@ == bare_addrs(mem@)
                    &&& memory_linked(mem@, l.mems@)
                    &&& !duplicate_defs(prog@, mem@)
                },
                Err((span, e)) => link_error_at(prog@, mem@, span, e),
            },
    {
        self.find_symbols(prog);
        let ghost t1 = self.symbol_table;
        let addrs = match self.readdress(mem) {
            Ok(a) => a,
            Err(e) => return Err(e),
        };
        match self.find_symbol_sources(prog, mem, &addrs) {
            Ok(()) => {},
            Err(e) => return Err(e),
        }
        let ghost all = |x: int| 0 <= x < prog@.len() + mem@.len();
        proof {
            assert forall|j: int| 0 <= j < prog@.len() implies symbols_in(self.symbol_table, #[trigger] prog@[j].op) by {
                lemma_symbols_in_mono(t1, self.symbol_table, prog@[j].op);
            }
            assert forall|j1: int, j2: int|
                0 <= j1 < j2 < mem@.len() && (#[trigger] mem@[j1]).addr is Bare && (#[trigger] mem@[j2]).addr is Bare
                    implies mem@[j1].addr != mem@[j2].addr by {
                if mem@[j1].addr == mem@[j2].addr {
                    let u = addr_symbol(mem@[j1].addr);
                    lemma_same_symbol_refl(u);
                    assert(site_defines(prog@, mem@, prog@.len() + j1, u));
                    assert(site_defines(prog@, mem@, prog@.len() + j2, u));
                }
            }
        }
        let mut mems: Vec<MemIr> = Vec::new();
        let mut mem_labels: Vec<(usize, String)> = Vec::new();
        let mut k: usize = 0;
        while k < mem.len()
            invariant
                k <= mem@.len(),
                addrs@.len() == mem@.len(),
                mems@.len() == k,
                forall|j: int| 0 <= j < k ==> (#[trigger] mems@[j]).addr == addrs@[j] && mems@[j].data == mem@[j].data,
            decreases mem.len() - k,
        {
            mems.push(MemIr { addr: addrs[k], data: mem[k].data });
            match &mem[k].addr {
                Addr::Label(l) => mem_labels.push((addrs[k], l.clone())),
                Addr::Bare(_) => {},
            }
            k += 1;
        }
        proof {
            assert(addrs_of(mems@) =~= addrs@);
            lemma_cells_distinct(mem@, addrs@);
            assert forall|j: int, k: int| 0 <= j < k < mem@.len() implies (#[trigger] mems@[j]).addr != (#[trigger] mems@[k]).addr by {
                assert(mems@[j].addr == addrs@[j] && mems@[k].addr == addrs@[k]);
            }
        }
        let mut insts: Vec<InstIr<I>> = Vec::new();
        let mut prog_labels: Vec<(usize, String)> = Vec::new();
        let mut i: usize = 0;
        while i < prog.len()
            invariant
                i <= prog@.len(),
                self.symbol_table.wf(),
                insts@.len() == i,
                forall|j: int| 0 <= j < prog@.len() ==> symbols_in(self.symbol_table, #[trigger] prog@[j].op),
                forall|j: int| 0 <= j < i ==> {
                    &&& (#[trigger] insts@[j]).addr == j
                    &&& insts@[j].inst.inst == prog@[j].opcode
                    &&& insts@[j].inst.id == prog@[j].opcode.spec_id()
                    &&& resolved_by(prog@, mem@, addrs@, prog@[j].op, insts@[j].inst.op)
                    &&& !insts@[j].inst.op.has_fail()
                },
                table_of(self.symbol_table, prog@, mem@, addrs@, all),
                all == (|x: int| 0 <= x < prog@.len() + mem@.len()),
                addrs@.len() == mem@.len(),
            decreases prog.len() - i,
        {
            let op = match resolve(&prog[i].op, &self.symbol_table) {
                Ok(op) => op,
                Err(s) => {
                    proof {
                        assert forall|j: int| !#[trigger] site_defines(prog@, mem@, j, s) by {
                            if site_defines(prog@, mem@, j, s) {
                                let u = site_symbol(prog@, mem@, j)->Some_0;
                                assert(all(j));
                                assert(self.symbol_table.resolves(u, site_addr(prog@, mem@, addrs@, j)));
                                lemma_resolves_congr(self.symbol_table, u, s, site_addr(prog@, mem@, addrs@, j));
                            }
                        }
                        assert(op_uses(prog@[i as int].op, s));
                    }
                    let slot = first_slot_of(&prog[i].op, &s);
                    let span = if slot < prog[i].op_spans.len() {
                        prog[i].op_spans[slot]
                    } else {
                        prog[i].span
                    };
                    proof {
                        if slot < prog@[i as int].op_spans@.len() {
                            assert(prog@[i as int].op_spans@[slot as int] == span);
                        }
                        let inst = prog@[i as int];
                        reveal_with_fuel(op_uses, 2);
                        assert(op_uses(inst.op, s));
                        if inst.op is MultiOp {
                            let v = inst.op->MultiOp_0;
                            lemma_uses_slot(inst.op, s);
                            assert(slot < v@.len() && op_uses(v@[slot as int], s));
                        }
                        assert(slot_span(prog@[i as int], s, span));
                    }
                    return Err((span, ErrorKind::UndefinedSymbol(s.text())));
                },
            };
            proof {
                lemma_resolved_no_fail(self.symbol_table, prog@[i as int].op, op);
                assert forall|u: Symbol, a: usize| #[trigger] self.symbol_table.resolves(u, a) implies defines(prog@, mem@, addrs@, u, a) by {
                    let j = choose|j: int| all(j) && #[trigger] site_defines(prog@, mem@, j, u) && site_addr(prog@, mem@, addrs@, j) == a;
                }
                lemma_resolved_defs(self.symbol_table, prog@, mem@, addrs@, prog@[i as int].op, op);
            }
            match &prog[i].addr {
                Some(a) => prog_labels.push((i, a.as_dbg_string())),
                None => {},
            }
            insts.push(InstIr::new(i, prog[i].opcode, op));
            i += 1;
        }
        Ok(Linked { insts, mems, prog_labels, mem_labels })
    }
}

/// The slot of a multi-operand that uses a symbol, or 0 for any other
/// operand.
fn first_slot_of(op: &Op, s: &Symbol) -> (r: usize)
    ensures
        *op is MultiOp && (exists|k: int| 0 <= k < op->MultiOp_0@.len() && #[trigger] op_uses(op->MultiOp_0@[k], *s))
            ==> r < op->MultiOp_0@.len() && op_uses(op->MultiOp_0@[r as int], *s),
        !(*op is MultiOp) ==> r == 0,
{
    match op {
        Op::MultiOp(v) => {
            let mut k: usize = 0;
            while k < v.len()
                invariant
                    k <= v@.len(),
                    *op is MultiOp && op->MultiOp_0 == *v,
                    forall|j: int| 0 <= j < k ==> !op_uses(#[trigger] v@[j], *s),
                decreases v.len() - k,
            {
                if uses_symbol(&v[k], s) {
                    return k;
                }
                k += 1;
            }
            0
        },
        _ => 0,
    }
}

/// The operand uses the symbol.
fn uses_symbol(op: &Op, s: &Symbol) -> (r: bool)
    ensures
        r == op_uses(*op, *s),
    decreases op,
{
    match op {
        Op::Addr(_) | Op::Fail(_) => match Symbol::try_from_op(op) {
            Some(t) => t.same(s),
            None => false,
        },
        Op::Indirect(i) => uses_symbol(i, s),
        Op::MultiOp(v) => {
            let mut k: usize = 0;
            while k < v.len()
                invariant
                    k <= v@.len(),
                    *op is MultiOp && op->MultiOp_0 == *v,
                    forall|j: int| 0 <= j < k ==> !op_uses(#[trigger] v@[j], *s),
                decreases v.len() - k,
            {
                if uses_symbol(&v[k], s) {
                    return true;
                }
                k += 1;
            }
            false
        },
        _ => false,
    }
}

proof fn lemma_same_symbol_sym(a: Symbol, b: Symbol)
    ensures
        same_symbol(a, b) == same_symbol(b, a),
{
}

proof fn lemma_same_symbol_sym_trans(a: Symbol, b: Symbol, c: Symbol)
    requires
        same_symbol(a, b),
        same_symbol(b, c),
    ensures
        same_symbol(a, c),
{
}

proof fn lemma_same_symbol_refl(s: Symbol)
    ensures
        same_symbol(s, s),
{
}

} // verus!
