//! Properties that hold across calls of the library, proved.

use vstd::prelude::*;

use crate::compile::{compiled_from, CompiledInst};
use crate::exec::ExecInst;
use crate::linker::{
    bare_addrs, labelled_addrs, lemma_labelled_len, lemma_labelled_position, lemma_labelled_prefix,
    lowest_free,
};
use crate::parser::{linked_program, Inst, Mem, MemIr};
use crate::inst::Op;
use crate::inst_set::{InstIr, InstSet};
use crate::linker::{defines, duplicate_defs, resolved_by, site_addr, site_defines};
use crate::linker::{addrs_of, memory_linked};

verus! {

/// Placing labelled memory is a function of the source: two address lists
/// of the same length that both give the lowest addresses left free by the
/// same bare cells are equal. With program addresses fixed by position,
/// linking the same source twice gives the same addresses.
pub proof fn lemma_readdress_deterministic(used: Set<usize>, s1: Seq<usize>, s2: Seq<usize>)
    requires
        lowest_free(used, s1),
        lowest_free(used, s2),
        s1.len() == s2.len(),
    ensures
        s1 == s2,
{
    assert forall|k: int| 0 <= k < s1.len() implies s1[k] == s2[k] by {
        lemma_same_prefix(used, s1, s2, k);
    }
    assert(s1 =~= s2);
}

proof fn lemma_same_prefix(used: Set<usize>, s1: Seq<usize>, s2: Seq<usize>, k: int)
    requires
        lowest_free(used, s1),
        lowest_free(used, s2),
        s1.len() == s2.len(),
        0 <= k < s1.len(),
    ensures
        forall|j: int| 0 <= j <= k ==> s1[j] == s2[j],
    decreases k,
{
    if k > 0 {
        lemma_same_prefix(used, s1, s2, k - 1);
    }
    let a = s1[k];
    let b = s2[k];
    if a < b {
        assert(!used.contains(a));
        let j = choose|j: int| 0 <= j < k && s2[j] == a;
        assert(s1[j] == s2[j]);
        assert(s1[j] < s1[k]);
    }
    if b < a {
        assert(!used.contains(b));
        let j = choose|j: int| 0 <= j < k && s1[j] == b;
        assert(s1[j] == s2[j]);
        assert(s2[j] < s2[k]);
    }
}

/// Linking never truncates memory: the addresses given to labelled cells
/// are pairwise distinct, and none of them is an address a bare cell uses.
pub proof fn lemma_labels_distinct_and_free(used: Set<usize>, s: Seq<usize>)
    requires
        lowest_free(used, s),
    ensures
        s.no_duplicates(),
        forall|k: int| 0 <= k < s.len() ==> !used.contains(#[trigger] s[k]),
{
    assert forall|i: int, j: int| 0 <= i < s.len() && 0 <= j < s.len() && i != j implies s[i] != s[j] by {
        if i < j {
            assert(s[i] < s[j]);
        } else {
            assert(s[j] < s[i]);
        }
    }
}

/// A compiled program turned back into an executor keeps every instruction:
/// the executor holds exactly the addresses `0..n` of the compiled program,
/// and at each the id and operand compiling gave it.
pub proof fn lemma_compiled_round_trip(c: Seq<(usize, CompiledInst)>, prog: Map<usize, ExecInst>)
    requires
        forall|k: int| 0 <= k < c.len() ==> (#[trigger] c[k]).0 == k,
        compiled_from(c, prog),
    ensures
        forall|a: usize| prog.contains_key(a) <==> (a as int) < c.len(),
        forall|k: int|
            0 <= k < c.len() ==> prog[k as usize].id == (#[trigger] c[k]).1.id && prog[k as usize].op
                == c[k].1.op,
{
    assert forall|a: usize| prog.contains_key(a) implies (a as int) < c.len() by {
        let k = choose|k: int| 0 <= k < c.len() && #[trigger] c[k].0 == a;
    }
    assert forall|a: usize| (a as int) < c.len() implies prog.contains_key(a) by {
        assert(c[a as int].0 == a);
    }
}

/// Linking the same memory lines twice gives every cell the same address:
/// bare cells keep their own, and labelled cells take the lowest free
/// addresses in order, which determines them.
pub proof fn lemma_memory_addresses_deterministic(mem: Seq<Mem>, a1: Seq<usize>, a2: Seq<usize>)
    requires
        a1.len() == mem.len(),
        a2.len() == mem.len(),
        forall|k: int| 0 <= k < mem.len() && (#[trigger] mem[k]).addr is Bare ==> a1[k] == mem[k].addr->Bare_0,
        forall|k: int| 0 <= k < mem.len() && (#[trigger] mem[k]).addr is Bare ==> a2[k] == mem[k].addr->Bare_0,
        lowest_free(bare_addrs(mem), labelled_addrs(mem, a1, mem.len() as int)),
        lowest_free(bare_addrs(mem), labelled_addrs(mem, a2, mem.len() as int)),
    ensures
        a1 == a2,
{
    let n = mem.len() as int;
    let l1 = labelled_addrs(mem, a1, n);
    let l2 = labelled_addrs(mem, a2, n);
    lemma_labelled_len(mem, a1, a2, n);
    lemma_readdress_deterministic(bare_addrs(mem), l1, l2);
    assert forall|k: int| 0 <= k < n implies a1[k] == a2[k] by {
        if mem[k].addr is Label {
            lemma_labelled_position(mem, a1, k);
            lemma_labelled_position(mem, a2, k);
            lemma_labelled_prefix(mem, a1, k + 1, n);
            lemma_labelled_prefix(mem, a2, k + 1, n);
            lemma_labelled_len(mem, a1, a2, k + 1);
            let p1 = labelled_addrs(mem, a1, k + 1);
            let p2 = labelled_addrs(mem, a2, k + 1);
            assert(p1[p1.len() - 1] == a1[k]);
            assert(p2[p2.len() - 1] == a2[k]);
            assert(l1.subrange(0, p1.len() as int)[p1.len() - 1] == l1[p1.len() - 1]);
            assert(l2.subrange(0, p2.len() as int)[p2.len() - 1] == l2[p2.len() - 1]);
        }
    }
    assert(a1 =~= a2);
}

/// Number of labelled cells among the first `n`.
pub open spec fn label_count(mem: Seq<Mem>, n: int) -> nat
    decreases n,
{
    if n <= 0 {
        0
    } else {
        label_count(mem, n - 1) + if mem[n - 1].addr is Label {
            1nat
        } else {
            0nat
        }
    }
}

/// The addresses no bare cell uses.
pub open spec fn free_addrs(mem: Seq<Mem>) -> Set<usize> {
    Set::<usize>::full().difference(bare_addrs(mem))
}

proof fn lemma_label_count(mem: Seq<Mem>, addrs: Seq<usize>, n: int)
    ensures
        labelled_addrs(mem, addrs, n).len() == label_count(mem, n),
    decreases n,
{
    if n > 0 {
        lemma_label_count(mem, addrs, n - 1);
    }
}

/// Linked memory never holds more labelled cells than there are addresses
/// left free by the bare cells: so a source with more labelled cells than
/// free addresses cannot link, and fails instead of losing cells.
pub proof fn lemma_labels_fit(mem: Seq<Mem>, mems: Seq<MemIr>)
    requires
        memory_linked(mem, mems),
    ensures
        label_count(mem, mem.len() as int) <= free_addrs(mem).len(),
{
    broadcast use vstd::set_lib::full_set_properties;
    let addrs = addrs_of(mems);
    let s = labelled_addrs(mem, addrs, mem.len() as int);
    lemma_label_count(mem, addrs, mem.len() as int);
    lemma_labels_distinct_and_free(bare_addrs(mem), s);
    s.unique_seq_to_set();
    let free = free_addrs(mem);
    assert(Set::<usize>::full().finite());
    vstd::set::axiom_set_difference_finite(Set::<usize>::full(), bare_addrs(mem));
    assert(s.to_set().subset_of(free)) by {
        assert forall|a: usize| s.to_set().contains(a) implies free.contains(a) by {
            let k = choose|k: int| 0 <= k < s.len() && s[k] == a;
        }
    }
    vstd::set_lib::lemma_len_subset(s.to_set(), free);
}

/// Two operands are the same, part by part.
pub open spec fn same_op(a: Op, b: Op) -> bool
    decreases a,
{
    match (a, b) {
        (Op::Indirect(x), Op::Indirect(y)) => same_op(*x, *y),
        (Op::MultiOp(v), Op::MultiOp(w)) => v@.len() == w@.len() && forall|k: int|
            0 <= k < v@.len() ==> same_op(#[trigger] v@[k], w@[k]),
        (Op::Fail(x), Op::Fail(y)) => x@ == y@,
        _ => a == b,
    }
}

proof fn lemma_defines_unique<I>(prog: Seq<Inst<I>>, mem: Seq<Mem>, addrs: Seq<usize>, s: crate::linker::Symbol, a1: usize, a2: usize)
    requires
        !duplicate_defs(prog, mem),
        defines(prog, mem, addrs, s, a1),
        defines(prog, mem, addrs, s, a2),
    ensures
        a1 == a2,
{
    let j1 = choose|j: int| #[trigger] site_defines(prog, mem, j, s) && site_addr(prog, mem, addrs, j) == a1;
    let j2 = choose|j: int| #[trigger] site_defines(prog, mem, j, s) && site_addr(prog, mem, addrs, j) == a2;
    if j1 != j2 {
        assert(duplicate_defs(prog, mem));
    }
}

proof fn lemma_resolved_unique<I>(prog: Seq<Inst<I>>, mem: Seq<Mem>, addrs: Seq<usize>, old: Op, n1: Op, n2: Op)
    requires
        !duplicate_defs(prog, mem),
        resolved_by(prog, mem, addrs, old, n1),
        resolved_by(prog, mem, addrs, old, n2),
    ensures
        same_op(n1, n2),
    decreases old,
{
    match old {
        Op::Addr(_) | Op::Fail(_) => {
            lemma_defines_unique(prog, mem, addrs, crate::linker::op_symbol(old)->Some_0, n1->Addr_0, n2->Addr_0);
        },
        Op::Indirect(i) => lemma_resolved_unique(prog, mem, addrs, *i, *n1->Indirect_0, *n2->Indirect_0),
        Op::MultiOp(v) => {
            assert forall|k: int| 0 <= k < n1->MultiOp_0@.len() implies same_op(#[trigger] n1->MultiOp_0@[k], n2->MultiOp_0@[k]) by {
                lemma_resolved_unique(prog, mem, addrs, v@[k], n1->MultiOp_0@[k], n2->MultiOp_0@[k]);
            }
        },
        _ => {},
    }
}

/// Linking is a function of the lines read: two programs linked from the
/// same instruction and memory lines place every memory cell at the same
/// address and hold, at each address, the same instruction id and the same
/// operand.
pub proof fn lemma_link_deterministic<I: InstSet>(
    prog: Seq<Inst<I>>,
    mem: Seq<Mem>,
    i1: Seq<InstIr<I>>,
    m1: Seq<MemIr>,
    i2: Seq<InstIr<I>>,
    m2: Seq<MemIr>,
)
    requires
        linked_program(prog, mem, i1, m1),
        linked_program(prog, mem, i2, m2),
    ensures
        addrs_of(m1) == addrs_of(m2),
        i1.len() == i2.len(),
        forall|i: int|
            0 <= i < i1.len() ==> (#[trigger] i1[i]).addr == i2[i].addr && i1[i].inst.id == i2[i].inst.id && same_op(
                i1[i].inst.op,
                i2[i].inst.op,
            ),
{
    lemma_memory_addresses_deterministic(mem, addrs_of(m1), addrs_of(m2));
    assert forall|i: int| 0 <= i < i1.len() implies (#[trigger] i1[i]).addr == i2[i].addr && i1[i].inst.id == i2[i].inst.id
        && same_op(i1[i].inst.op, i2[i].inst.op) by {
        lemma_resolved_unique(prog, mem, addrs_of(m1), prog[i].op, i1[i].inst.op, i2[i].inst.op);
    }
}

/// The first labelled cell goes at or below any free address: in
/// particular, below every bare address when some address below them all is
/// free.
pub proof fn lemma_first_label_lowest(used: Set<usize>, s: Seq<usize>, a: usize)
    requires
        lowest_free(used, s),
        s.len() > 0,
        !used.contains(a),
    ensures
        s[0] <= a,
{
    if s[0] > a {
        assert(!used.contains(a) && a < s[0]);
        assert(exists|j: int| 0 <= j < 0 && s[j] == a);
    }
}

/// When the bare cells use every address from 0 to `m` and not `m + 1`, the
/// first labelled cell goes right above them, at `m + 1`.
pub proof fn lemma_first_label_above(used: Set<usize>, s: Seq<usize>, m: usize)
    requires
        lowest_free(used, s),
        s.len() > 0,
        m < usize::MAX,
        forall|a: usize| a <= m ==> used.contains(a),
        !used.contains((m + 1) as usize),
    ensures
        s[0] == m + 1,
{
    lemma_first_label_lowest(used, s, (m + 1) as usize);
    assert(!used.contains(s[0]));
}

/// Parsing never drops, merges or truncates memory: the linked memory has
/// one cell for each cell the memory lines declare (a block `[init;len]`
/// declaring `len`), in order, each with its data, at pairwise distinct
/// addresses.
pub proof fn lemma_nothing_dropped<I: InstSet>(
    lines: Seq<Vec<crate::lexer::Spanned>>,
    clean: bool,
    insts: Seq<InstIr<I>>,
    mems: Seq<MemIr>,
)
    requires
        crate::parser::parse_ok::<I>(lines, clean, insts, mems),
    ensures
        exists|mem: Seq<Mem>, s: int, e: int|
            #[trigger] crate::parser::cells_from(lines, s, e, mem) && mems.len() == mem.len() && (forall|k: int|
                0 <= k < mem.len() ==> (#[trigger] mems[k]).data == mem[k].data) && (forall|j: int, k: int|
                0 <= j < k < mems.len() ==> (#[trigger] mems[j]).addr != (#[trigger] mems[k]).addr),
{
    let (prog, mem, s, e) = choose|prog: Seq<Inst<I>>, mem: Seq<Mem>, s: int, e: int|
        #[trigger] crate::parser::read_parts(lines, prog, mem, s, e) && clean && crate::parser::lines_accepted::<I>(lines, s, e)
            && linked_program(prog, mem, insts, mems);
    assert(crate::parser::cells_from(lines, s, e, mem));
}

} // verus!
