//! Operands and the operand predicates that instructions dispatch on.

use vstd::prelude::*;

use crate::text::{
    chars_of, eq_ignore_case, parse_radix, parse_spec, string_from_chars, upper_seq,
};

verus! {

/// Number of general purpose registers, `r0` to `r29`.
pub const GPR_COUNT: usize = 30;

/// Every shape an operand can take.
///
/// `Fail` holds text that still has to be resolved to an address; after a
/// successful link no `Fail` remains in a program.
#[derive(PartialEq, Eq, Debug, Hash)]
pub enum Op {
    Fail(String),
    Acc,
    Ix,
    Cmp,
    Ar,
    Indirect(Box<Op>),
    Addr(usize),
    Literal(usize),
    Gpr(usize),
    MultiOp(Vec<Op>),
    Null,
}

impl Op {
    /// A register, or an indirection through a register.
    pub open spec fn spec_is_register(&self) -> bool
        decreases self,
    {
        match self {
            Op::Indirect(inner) => inner.spec_is_register(),
            Op::Acc | Op::Ix | Op::Ar => true,
            Op::Gpr(n) => *n < GPR_COUNT,
            _ => false,
        }
    }

    /// A register or memory location that can be both read and written.
    pub open spec fn spec_is_read_write(&self) -> bool
        decreases self,
    {
        self.spec_is_register() || match self {
            Op::Indirect(inner) => inner.spec_is_read_write(),
            Op::Addr(_) => true,
            _ => false,
        }
    }

    /// An operand that denotes a machine word.
    pub open spec fn spec_is_usizeable(&self) -> bool {
        self.spec_is_read_write() || self is Literal
    }

    /// A register named directly, without indirection.
    pub open spec fn is_direct_register(&self) -> bool {
        match self {
            Op::Acc | Op::Ix | Op::Ar => true,
            Op::Gpr(n) => *n < GPR_COUNT,
            _ => false,
        }
    }

    /// The operand, or something nested in it, is an unresolved label.
    pub open spec fn has_fail(&self) -> bool
        decreases self,
    {
        match self {
            Op::Fail(_) => true,
            Op::Indirect(inner) => inner.has_fail(),
            Op::MultiOp(ops) => exists|k: int| 0 <= k < ops.len() && (#[trigger] ops[k]).has_fail(),
            _ => false,
        }
    }

    /// No operand.
    pub fn is_none(&self) -> (r: bool)
        ensures
            r == (*self is Null),
    {
        matches!(self, Op::Null)
    }

    #[verifier::when_used_as_spec(spec_is_register)]
    pub fn is_register(&self) -> (r: bool)
        ensures
            r == self.spec_is_register(),
        decreases self,
    {
        match self {
            Op::Indirect(inner) => inner.is_register(),
            Op::Acc | Op::Ix | Op::Ar => true,
            Op::Gpr(n) => *n < GPR_COUNT,
            _ => false,
        }
    }

    #[verifier::when_used_as_spec(spec_is_read_write)]
    pub fn is_read_write(&self) -> (r: bool)
        ensures
            r == self.spec_is_read_write(),
        decreases self,
    {
        self.is_register() || match self {
            Op::Indirect(inner) => inner.is_read_write(),
            Op::Addr(_) => true,
            _ => false,
        }
    }

    #[verifier::when_used_as_spec(spec_is_usizeable)]
    pub fn is_usizeable(&self) -> (r: bool)
        ensures
            r == self.spec_is_usizeable(),
    {
        self.is_read_write() || matches!(self, Op::Literal(_))
    }
}

/// Index of the first comma, or the length if there is none.
pub open spec fn first_comma(s: Seq<char>) -> int
    decreases s.len(),
{
    if s.len() == 0 {
        0
    } else if s[0] == ',' {
        0
    } else {
        1 + first_comma(s.drop_first())
    }
}

/// The pieces of a text between commas.
pub open spec fn split_commas(s: Seq<char>) -> Seq<Seq<char>>
    decreases s.len(),
{
    let k = first_comma(s);
    if 0 <= k < s.len() {
        seq![s.subrange(0, k)] + split_commas(s.subrange(k + 1, s.len() as int))
    } else {
        seq![s]
    }
}

proof fn lemma_first_comma(s: Seq<char>)
    ensures
        0 <= first_comma(s) <= s.len(),
        first_comma(s) < s.len() ==> s[first_comma(s)] == ',',
        forall|j: int| 0 <= j < first_comma(s) ==> s[j] != ',',
    decreases s.len(),
{
    if s.len() > 0 && s[0] != ',' {
        lemma_first_comma(s.drop_first());
        assert forall|j: int| 0 <= j < first_comma(s) implies s[j] != ',' by {
            if j > 0 {
                assert(s[j] == s.drop_first()[j - 1]);
            }
        }
    }
}

/// A decimal number, with an optional leading `+`, that fits in a word.
pub open spec fn decimal_of(s: Seq<char>) -> Option<usize> {
    if s.len() > 0 && s[0] == '+' {
        parse_spec(s.drop_first(), 10)
    } else {
        parse_spec(s, 10)
    }
}

/// The value of a literal `#n`, `#bn`, `#on` or `#xn`.
pub open spec fn literal_of(s: Seq<char>) -> Option<usize> {
    if s.len() >= 2 && s[0] == '#' {
        let c = s[1];
        if c == 'b' || c == 'B' {
            parse_spec(s.subrange(2, s.len() as int), 2)
        } else if c == 'o' || c == 'O' {
            parse_spec(s.subrange(2, s.len() as int), 8)
        } else if c == 'x' || c == 'X' {
            parse_spec(s.subrange(2, s.len() as int), 16)
        } else if '0' <= c && c <= '9' {
            parse_spec(s.drop_first(), 10)
        } else {
            None
        }
    } else {
        None
    }
}

/// The number of a general register `rN`, when `N` is below the register count.
pub open spec fn register_of(s: Seq<char>) -> Option<usize> {
    if s.len() >= 2 && s[0] == 'r' && parse_spec(s.drop_first(), 10) is Some
        && parse_spec(s.drop_first(), 10)->Some_0 < GPR_COUNT {
        parse_spec(s.drop_first(), 10)
    } else {
        None
    }
}

/// What a single operand written as text denotes: nothing, an address, a
/// literal, a register, or else a label still to be resolved.
pub open spec fn single_op(s: Seq<char>, r: Op) -> bool {
    if s.len() == 0 {
        r == Op::Null
    } else if decimal_of(s) is Some {
        r == Op::Addr(decimal_of(s)->Some_0)
    } else if s.contains('#') && literal_of(s) is Some {
        r == Op::Literal(literal_of(s)->Some_0)
    } else if !s.contains('#') && register_of(s) is Some {
        r == Op::Gpr(register_of(s)->Some_0)
    } else if !s.contains('#') && upper_seq(s) == upper_seq("ACC"@) {
        r == Op::Acc
    } else if !s.contains('#') && upper_seq(s) == upper_seq("CMP"@) {
        r == Op::Cmp
    } else if !s.contains('#') && upper_seq(s) == upper_seq("IX"@) {
        r == Op::Ix
    } else if !s.contains('#') && upper_seq(s) == upper_seq("AR"@) {
        r == Op::Ar
    } else {
        r is Fail && r->Fail_0@ == s
    }
}

/// What an operand written as text denotes: a comma-separated text is a
/// multi-operand of its pieces.
pub open spec fn text_op(s: Seq<char>, r: Op) -> bool {
    if s.contains(',') {
        r is MultiOp && r->MultiOp_0@.len() == split_commas(s).len() && forall|k: int|
            0 <= k < split_commas(s).len() ==> single_op(
                #[trigger] split_commas(s)[k],
                r->MultiOp_0@[k],
            )
    } else {
        single_op(s, r)
    }
}

/// How an operand is written: `ACC`, `IX`, `CMP`, `AR`, an address in
/// decimal, `#` and a literal, `rN`, `(inner)`, a label's text, nothing for
/// no operand, and the parts of a multi-operand separated by commas.
pub open spec fn op_text(op: Op) -> Seq<char>
    decreases op, 0nat,
{
    match op {
        Op::Null => Seq::empty(),
        Op::Acc => "ACC"@,
        Op::Ix => "IX"@,
        Op::Cmp => "CMP"@,
        Op::Ar => "AR"@,
        Op::Addr(x) => crate::text::radix_spec(x as nat, 10),
        Op::Literal(x) => "#"@ + crate::text::radix_spec(x as nat, 10),
        Op::Indirect(inner) => "("@ + op_text(*inner) + ")"@,
        Op::Fail(x) => x@,
        Op::Gpr(x) => "r"@ + crate::text::radix_spec(x as nat, 10),
        Op::MultiOp(v) => {
            proof {
                assert(decreases_to!(op => v));
                broadcast use vstd::std_specs::vec::axiom_vec_decreases_to_view;
            }
            ops_text(v@, v@.len() as int)
        },
    }
}

/// The first `n` operands written one after another, separated by commas.
pub open spec fn ops_text(s: Seq<Op>, n: int) -> Seq<char>
    decreases s, n,
{
    if n <= 0 || n > s.len() {
        Seq::empty()
    } else if n == 1 {
        op_text(s[0])
    } else {
        ops_text(s, n - 1) + ","@ + op_text(s[n - 1])
    }
}

fn contains_char(cs: &[char], c: char) -> (r: bool)
    ensures
        r == cs@.contains(c),
{
    let mut i: usize = 0;
    while i < cs.len()
        invariant
            i <= cs@.len(),
            forall|j: int| 0 <= j < i ==> cs@[j] != c,
        decreases cs.len() - i,
    {
        if cs[i] == c {
            return true;
        }
        i += 1;
    }
    false
}

/// Reads one operand from its text.
pub fn get_op(cs: &[char]) -> (r: Op)
    ensures
        single_op(cs@, r),
{
    let n = cs.len();
    if n == 0 {
        return Op::Null;
    }
    let dec = if cs[0] == '+' {
        proof {
            assert(cs@.drop_first() =~= cs@.subrange(1, n as int));
        }
        parse_radix(cs, 1, n, 10)
    } else {
        proof {
            assert(cs@ =~= cs@.subrange(0, n as int));
        }
        parse_radix(cs, 0, n, 10)
    };
    if let Some(a) = dec {
        return Op::Addr(a);
    }
    let has_hash = contains_char(cs, '#');
    if has_hash {
        if cs[0] == '#' {
            if let Some(v) = get_literal(cs) {
                return Op::Literal(v);
            }
        }
    } else {
        if let Some(x) = get_reg_no(cs) {
            return Op::Gpr(x);
        }
        if eq_ignore_case(cs, "ACC") {
            return Op::Acc;
        }
        if eq_ignore_case(cs, "CMP") {
            return Op::Cmp;
        }
        if eq_ignore_case(cs, "IX") {
            return Op::Ix;
        }
        if eq_ignore_case(cs, "AR") {
            return Op::Ar;
        }
    }
    Op::Fail(string_from_chars(cs))
}

/// The value of a literal written `#n`, `#bn`, `#on` or `#xn`.
pub fn get_literal(cs: &[char]) -> (r: Option<usize>)
    requires
        cs@.len() > 0 && cs@[0] == '#',
    ensures
        r == literal_of(cs@),
{
    let n = cs.len();
    if n >= 2 && cs[0] == '#' {
        let c = cs[1];
        if c == 'b' || c == 'B' {
            parse_radix(cs, 2, n, 2)
        } else if c == 'o' || c == 'O' {
            parse_radix(cs, 2, n, 8)
        } else if c == 'x' || c == 'X' {
            parse_radix(cs, 2, n, 16)
        } else if '0' <= c && c <= '9' {
            proof {
                assert(cs@.drop_first() =~= cs@.subrange(1, n as int));
            }
            parse_radix(cs, 1, n, 10)
        } else {
            None
        }
    } else {
        None
    }
}

/// The number of a general register written `rN`.
pub fn get_reg_no(cs: &[char]) -> (r: Option<usize>)
    ensures
        r == register_of(cs@),
{
    let n = cs.len();
    if n >= 2 && cs[0] == 'r' {
        proof {
            assert(cs@.drop_first() =~= cs@.subrange(1, n as int));
        }
        match parse_radix(cs, 1, n, 10) {
            Some(x) => if x < GPR_COUNT {
                Some(x)
            } else {
                None
            },
            None => None,
        }
    } else {
        None
    }
}

impl Op {
    /// Reads an operand from its text: pieces between commas make a
    /// multi-operand.
    pub fn parse(s: &str) -> (r: Op)
        ensures
            text_op(s@, r),
    {
        let cs = chars_of(s);
        if !contains_char(cs.as_slice(), ',') {
            return get_op(cs.as_slice());
        }
        let mut ops: Vec<Op> = Vec::new();
        let mut start: usize = 0;
        let ghost done: Seq<Seq<char>> = Seq::empty();
        proof {
            assert(cs@.subrange(0, cs@.len() as int) =~= s@);
        }
        loop
            invariant
                start <= cs@.len(),
                cs@ == s@,
                s@.contains(','),
                ops@.len() == done.len(),
                split_commas(s@) == done + split_commas(cs@.subrange(start as int, cs@.len() as int)),
                forall|k: int| 0 <= k < done.len() ==> single_op(#[trigger] done[k], ops@[k]),
            decreases cs@.len() - start,
        {
            let ghost rest = cs@.subrange(start as int, cs@.len() as int);
            proof {
                lemma_first_comma(rest);
            }
            let mut k = start;
            while k < cs.len() && cs[k] != ','
                invariant
                    start <= k <= cs@.len(),
                    rest == cs@.subrange(start as int, cs@.len() as int),
                    forall|j: int| start <= j < k ==> cs@[j] != ',',
                decreases cs.len() - k,
            {
                k += 1;
            }
            proof {
                assert(first_comma(rest) == k - start) by {
                    if first_comma(rest) < k - start {
                        assert(rest[first_comma(rest)] == cs@[start + first_comma(rest)]);
                    }
                    if first_comma(rest) > k - start {
                        assert(rest[k - start] == cs@[k as int]);
                    }
                }
            }
            let piece = &cs.as_slice()[start..k];
            let op = get_op(piece);
            ops.push(op);
            proof {
                assert(piece@ =~= rest.subrange(0, k - start));
                done = done.push(piece@);
            }
            if k >= cs.len() {
                proof {
                    assert(split_commas(rest) =~= seq![piece@]);
                    assert(split_commas(s@) =~= done);
                }
                return Op::MultiOp(ops);
            }
            proof {
                assert(rest.subrange(k - start + 1, rest.len() as int) =~= cs@.subrange(k + 1, cs@.len() as int));
                assert(split_commas(rest) =~= seq![piece@] + split_commas(cs@.subrange(k + 1, cs@.len() as int)));
                assert(split_commas(s@) =~= done + split_commas(cs@.subrange(k + 1, cs@.len() as int)));
            }
            start = k + 1;
        }
    }
}

impl Op {
    /// The value the operand denotes in a context.
    pub fn get_val(&self, ctx: &crate::context::Context) -> (r: Result<usize, crate::error::RtError>)
        ensures
            r == crate::context::read_spec(*ctx, *self),
    {
        ctx.read(self)
    }
}

impl Op {
    /// The operand as written, character by character.
    pub fn render(&self) -> (r: Vec<char>)
        ensures
            r@ == op_text(*self),
        decreases self,
    {
        let mut out: Vec<char> = Vec::new();
        match self {
            Op::Null => {},
            Op::Acc => crate::text::extend_str(&mut out, "ACC"),
            Op::Ix => crate::text::extend_str(&mut out, "IX"),
            Op::Cmp => crate::text::extend_str(&mut out, "CMP"),
            Op::Ar => crate::text::extend_str(&mut out, "AR"),
            Op::Addr(x) => {
                let d = crate::text::radix_digits(*x as u128, 10);
                crate::text::extend_chars(&mut out, d.as_slice());
            },
            Op::Literal(x) => {
                crate::text::extend_str(&mut out, "#");
                let d = crate::text::radix_digits(*x as u128, 10);
                crate::text::extend_chars(&mut out, d.as_slice());
            },
            Op::Indirect(inner) => {
                crate::text::extend_str(&mut out, "(");
                let t = inner.render();
                crate::text::extend_chars(&mut out, t.as_slice());
                crate::text::extend_str(&mut out, ")");
            },
            Op::Fail(x) => {
                let cs = chars_of(x.as_str());
                crate::text::extend_chars(&mut out, cs.as_slice());
            },
            Op::Gpr(x) => {
                crate::text::extend_str(&mut out, "r");
                let d = crate::text::radix_digits(*x as u128, 10);
                crate::text::extend_chars(&mut out, d.as_slice());
            },
            Op::MultiOp(v) => {
                let mut k: usize = 0;
                while k < v.len()
                    invariant
                        k <= v@.len(),
                        *self is MultiOp && self->MultiOp_0 == *v,
                        out@ == ops_text(v@, k as int),
                    decreases v.len() - k,
                {
                    if k > 0 {
                        crate::text::extend_str(&mut out, ",");
                    }
                    let t = v[k].render();
                    crate::text::extend_chars(&mut out, t.as_slice());
                    k += 1;
                    proof {
                        if k == 1 {
                            assert(out@ =~= ops_text(v@, 1));
                        }
                    }
                }
            },
        }
        proof {
            reveal_strlit("");
        }
        out
    }

    /// The operand as written.
    pub fn to_text(&self) -> (r: String)
        ensures
            r@ == op_text(*self),
    {
        let v = self.render();
        string_from_chars(v.as_slice())
    }
}

impl<'a> From<&'a str> for Op {
    /// Reads an operand from its text, as `Op::parse` does.
    fn from(s: &'a str) -> (r: Op) {
        Op::parse(s)
    }
}

impl<'a> vstd::std_specs::convert::FromSpecImpl<&'a str> for Op {
    open spec fn obeys_from_spec() -> bool {
        false
    }

    open spec fn from_spec(v: &'a str) -> Op {
        Op::Null
    }
}

} // verus!
