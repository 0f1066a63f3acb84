//! The lexer: source text to lines of tokens, each with its byte span, and a
//! map of lexical errors. Lexing never stops at an error: every error is
//! recorded and the rest of the text is still read.

use vstd::prelude::*;

use crate::inst::{text_op, Op};
use crate::text::{
    chars_of, digit_spec, eq_ignore_case, is_digit_of, parse_radix, parse_spec, string_from_chars,
    upper_seq,
};

verus! {

/// A byte range `start..end` of the source text.
#[derive(Debug, Clone, Copy, PartialEq, Eq, Structural, Hash, PartialOrd, Ord)]
pub struct Span {
    pub start: usize,
    pub end: usize,
}

/// Every error the lexer, parser and linker report.
#[derive(Debug, PartialEq, Eq)]
pub enum ErrorKind {
    /// A number is malformed or does not fit in a machine word.
    ParseIntError,
    SyntaxError,
    InvalidOpcode(String),
    InvalidOperand,
    /// A label is used but never defined.
    UndefinedSymbol(String),
    /// A label or address is defined more than once.
    DuplicateSymbol(String),
    /// There are more labelled memory cells than free addresses.
    AddressSpaceExhausted,
    /// The source has no blank-line separated memory block.
    MissingMemoryBlock,
}

/// Errors by span; the first error recorded for a span is kept.
#[derive(Debug)]
pub struct ErrorMap {
    pub entries: Vec<(Span, ErrorKind)>,
}

impl ErrorMap {
    /// No two entries share a span.
    pub open spec fn wf(&self) -> bool {
        forall|i: int, j: int|
            0 <= i < j < self.entries@.len() ==> (#[trigger] self.entries@[i]).0 != (
            #[trigger] self.entries@[j]).0
    }

    /// The spans that have an error.
    pub open spec fn spans(&self) -> Set<Span> {
        Set::new(|s: Span| exists|i: int| 0 <= i < self.entries@.len() && (#[trigger] self.entries@[i]).0 == s)
    }

    pub fn new() -> (r: ErrorMap)
        ensures
            r.wf(),
            r.entries@.len() == 0,
    {
        ErrorMap { entries: Vec::new() }
    }

    /// Records `kind` at `span` unless the span already has an error.
    pub fn push_error(&mut self, span: Span, kind: ErrorKind)
        requires
            old(self).wf(),
        ensures
            final(self).wf(),
            old(self).spans().contains(span) ==> final(self).entries@ == old(self).entries@,
            !old(self).spans().contains(span) ==> final(self).entries@ == old(self).entries@.push(
                (span, kind),
            ),
            final(self).entries@ == add_first(old(self).entries@, span, kind),
    {
        let mut i: usize = 0;
        while i < self.entries.len()
            invariant
                i <= self.entries@.len(),
                self.entries@ == old(self).entries@,
                old(self).wf(),
                forall|j: int| 0 <= j < i ==> (#[trigger] self.entries@[j]).0 != span,
            decreases self.entries.len() - i,
        {
            if self.entries[i].0 == span {
                proof {
                    assert(old(self).spans().contains(span));
                    assert(exists|j: int| 0 <= j < old(self).entries@.len() && (#[trigger] old(self).entries@[j]).0 == span);
                }
                return;
            }
            i += 1;
        }
        proof {
            assert(!old(self).spans().contains(span));
        }
        self.entries.push((span, kind));
    }

    pub fn is_empty(&self) -> (r: bool)
        ensures
            r == (self.entries@.len() == 0),
    {
        self.entries.len() == 0
    }

    pub fn len(&self) -> (r: usize)
        ensures
            r == self.entries@.len(),
    {
        self.entries.len()
    }
}

/// A linear block of memory `[init;len]`: `len` cells holding `init`.
#[derive(Debug, Clone, Copy, PartialEq, Eq)]
pub struct LinearMemory {
    pub init: usize,
    pub len: usize,
}

/// One lexical unit.
#[derive(Debug, PartialEq, Eq)]
pub enum Token {
    Text(String),
    Colon,
    Comma,
    Gpr(usize),
    Literal(usize),
    BareNumber(usize),
    Indirect(String),
    Newline,
    LinearMemory(LinearMemory),
}

/// A letter, digit or underscore.
pub open spec fn word_char(c: char) -> bool {
    ('a' <= c && c <= 'z') || ('A' <= c && c <= 'Z') || ('0' <= c && c <= '9') || c == '_'
}

/// Whether a character can be part of a word.
pub fn is_word_char(c: char) -> (r: bool)
    ensures
        r == word_char(c),
{
    ('a' <= c && c <= 'z') || ('A' <= c && c <= 'Z') || ('0' <= c && c <= '9') || c == '_'
}

/// Bytes a character takes in UTF-8.
pub open spec fn utf8_len(c: char) -> nat {
    if (c as u32) < 0x80 {
        1
    } else if (c as u32) < 0x800 {
        2
    } else if (c as u32) < 0x10000 {
        3
    } else {
        4
    }
}

/// Bytes a character takes in UTF-8.
pub fn char_len(c: char) -> (r: usize)
    ensures
        r == utf8_len(c),
{
    if (c as u32) < 0x80 {
        1
    } else if (c as u32) < 0x800 {
        2
    } else if (c as u32) < 0x10000 {
        3
    } else {
        4
    }
}

/// Byte offset of character `i`: the UTF-8 lengths of the characters
/// before it, saturating at the largest word.
pub open spec fn byte_offset(cs: Seq<char>, i: int) -> int
    decreases i,
{
    if i <= 0 {
        0
    } else {
        let p = byte_offset(cs, i - 1);
        if p + utf8_len(cs[i - 1]) <= usize::MAX {
            p + utf8_len(cs[i - 1])
        } else {
            usize::MAX as int
        }
    }
}

/// Byte offset of each character, and of the end, saturating at the
/// largest word.
pub fn byte_offsets(cs: &[char]) -> (r: Vec<usize>)
    ensures
        r@.len() == cs@.len() + 1,
        r@[0] == 0,
        forall|i: int| 0 <= i <= cs@.len() ==> #[trigger] r@[i] == byte_offset(cs@, i),
        forall|i: int, j: int| 0 <= i <= j <= cs@.len() ==> (#[trigger] r@[i]) <= (#[trigger] r@[j]),
        forall|i: int| 0 <= i < cs@.len() ==> r@[i + 1] == if r@[i] + utf8_len(cs@[i]) <= usize::MAX {
            r@[i] + utf8_len(cs@[i])
        } else {
            usize::MAX as int
        },
{
    let mut v: Vec<usize> = Vec::new();
    v.push(0);
    let mut i: usize = 0;
    while i < cs.len()
        invariant
            i <= cs@.len(),
            v@.len() == i + 1,
            v@[0] == 0,
            forall|a: int| 0 <= a <= i ==> #[trigger] v@[a] == byte_offset(cs@, a),
            forall|a: int, b: int| 0 <= a <= b <= i ==> (#[trigger] v@[a]) <= (#[trigger] v@[b]),
            forall|k: int| 0 <= k < i ==> v@[k + 1] == if v@[k] + utf8_len(cs@[k]) <= usize::MAX {
                v@[k] + utf8_len(cs@[k])
            } else {
                usize::MAX as int
            },
        decreases cs.len() - i,
    {
        let last = v[i];
        let l = char_len(cs[i]);
        let next = if last <= usize::MAX - l {
            last + l
        } else {
            usize::MAX
        };
        v.push(next);
        i += 1;
    }
    v
}

/// End of the longest run of characters from `i` on that satisfy `p`.
pub open spec fn run_end(cs: Seq<char>, i: int, j: int, p: spec_fn(char) -> bool) -> bool {
    &&& i <= j <= cs.len()
    &&& forall|k: int| i <= k < j ==> p(#[trigger] cs[k])
    &&& (j == cs.len() || !p(cs[j]))
}

/// The end of the run of word characters from `i`.
pub fn scan_word(cs: &[char], i: usize) -> (j: usize)
    requires
        i <= cs@.len(),
    ensures
        run_end(cs@, i as int, j as int, |c: char| word_char(c)),
{
    let mut j = i;
    while j < cs.len() && is_word_char(cs[j])
        invariant
            i <= j <= cs@.len(),
            forall|k: int| i <= k < j ==> word_char(#[trigger] cs@[k]),
        decreases cs.len() - j,
    {
        j += 1;
    }
    j
}

/// The first position from `from` on that holds no digit of `radix`.
pub open spec fn digits_end(cs: Seq<char>, from: int, radix: nat) -> int
    decreases cs.len() - from,
{
    if from >= cs.len() || from < 0 || !is_digit_of(cs[from], radix) {
        from
    } else {
        digits_end(cs, from + 1, radix)
    }
}

/// The end of the run of digits of `radix` from `i`.
pub fn scan_digits(cs: &[char], i: usize, radix: u32) -> (j: usize)
    requires
        i <= cs@.len(),
        2 <= radix <= 16,
    ensures
        run_end(cs@, i as int, j as int, |c: char| is_digit_of(c, radix as nat)),
        j == digits_end(cs@, i as int, radix as nat),
{
    let mut j = i;
    while j < cs.len()
        invariant
            i <= j <= cs@.len(),
            forall|k: int| i <= k < j ==> is_digit_of(#[trigger] cs@[k], radix as nat),
            digits_end(cs@, i as int, radix as nat) == digits_end(cs@, j as int, radix as nat),
        decreases cs.len() - j,
    {
        match crate::text::digit_value(cs[j]) {
            Some(d) => {
                if d >= radix {
                    return j;
                }
            },
            None => {
                return j;
            },
        }
        j += 1;
    }
    j
}

/// `r` followed by one or two decimal digits.
pub open spec fn gpr_word(w: Seq<char>) -> bool {
    (w.len() == 2 || w.len() == 3) && w[0] == 'r' && forall|k: int| 1 <= k < w.len() ==> is_digit_of(#[trigger] w[k], 10)
}

/// Only decimal digits, at least one.
pub open spec fn number_word(w: Seq<char>) -> bool {
    w.len() > 0 && forall|k: int| 0 <= k < w.len() ==> is_digit_of(#[trigger] w[k], 10)
}

/// What a word becomes: a register, a bare number, or text.
pub open spec fn word_token_ok(w: Seq<char>, t: Token) -> bool {
    if gpr_word(w) {
        t == Token::Gpr(parse_spec(w.drop_first(), 10)->Some_0)
    } else if number_word(w) {
        parse_spec(w, 10) is Some && t == Token::BareNumber(parse_spec(w, 10)->Some_0)
    } else {
        t is Text && t->Text_0@ == w
    }
}

/// Classifies the word `cs[i..j]`.
pub fn word_token(cs: &[char], i: usize, j: usize) -> (r: Result<Token, ErrorKind>)
    requires
        i < j <= cs@.len(),
    ensures
        match r {
            Ok(t) => word_token_ok(cs@.subrange(i as int, j as int), t),
            Err(e) => e == ErrorKind::ParseIntError && number_word(cs@.subrange(i as int, j as int))
                && !gpr_word(cs@.subrange(i as int, j as int)) && parse_spec(cs@.subrange(i as int, j as int), 10) is None,
        },
{
    let ghost w = cs@.subrange(i as int, j as int);
    let d = scan_digits(cs, i + 1, 10);
    if cs[i] == 'r' && (j - i == 2 || j - i == 3) && d >= j {
        proof {
            assert(gpr_word(w));
            assert(w.drop_first() =~= cs@.subrange(i + 1, j as int));
        }
        return match parse_radix(cs, i + 1, j, 10) {
            Some(n) => Ok(Token::Gpr(n)),
            None => {
                proof {
                    assert(crate::text::digits_value(cs@.subrange(i + 1, j as int), 10) <= 99) by {
                        lemma_small_value(cs@.subrange(i + 1, j as int));
                    }
                }
                Err(ErrorKind::ParseIntError)
            },
        };
    }
    proof {
        if gpr_word(w) {
            assert forall|k: int| i + 1 <= k < j implies is_digit_of(cs@[k], 10) by {
                assert(w[k - i] == cs@[k]);
            }
            assert(d >= j);
        }
    }
    let e = scan_digits(cs, i, 10);
    if e >= j {
        proof {
            assert(number_word(w));
        }
        match parse_radix(cs, i, j, 10) {
            Some(n) => Ok(Token::BareNumber(n)),
            None => Err(ErrorKind::ParseIntError),
        }
    } else {
        proof {
            assert(!number_word(w)) by {
                assert(!is_digit_of(w[e - i], 10));
            }
        }
        let s = string_from_chars(&cs[i..j]);
        proof {
            assert(cs@.subrange(i as int, j as int) =~= w);
        }
        Ok(Token::Text(s))
    }
}

proof fn lemma_small_value(s: Seq<char>)
    requires
        1 <= s.len() <= 2,
        forall|k: int| 0 <= k < s.len() ==> is_digit_of(#[trigger] s[k], 10),
    ensures
        crate::text::digits_value(s, 10) <= 99,
{
    let t = s.drop_last();
    assert(is_digit_of(s[s.len() - 1], 10));
    if s.len() == 2 {
        assert(is_digit_of(s[0], 10));
        assert(t.drop_last().len() == 0);
        assert(t.last() == s[0]);
        assert(crate::text::digits_value(t.drop_last(), 10) == 0);
        assert(crate::text::digits_value(t, 10) == digit_spec(s[0])->Some_0);
    } else {
        assert(t.len() == 0);
        assert(crate::text::digits_value(t, 10) == 0);
    }
}

/// A radix prefix of a literal: `b` for binary, `o` for octal, `x` or `&`
/// for hexadecimal.
pub open spec fn radix_of(c: char) -> nat {
    if c == 'b' || c == 'B' {
        2
    } else if c == 'o' || c == 'O' {
        8
    } else if c == 'x' || c == 'X' || c == '&' {
        16
    } else {
        0
    }
}

fn prefix_radix(c: char) -> (r: u32)
    ensures
        r == radix_of(c),
{
    if c == 'b' || c == 'B' {
        2
    } else if c == 'o' || c == 'O' {
        8
    } else if c == 'x' || c == 'X' || c == '&' {
        16
    } else {
        0
    }
}

/// The number a run of digits gives as a token, or a malformed number.
pub open spec fn number_result(v: Option<usize>) -> Result<Token, ErrorKind> {
    match v {
        Some(n) => Ok(Token::Literal(n)),
        None => Err(ErrorKind::ParseIntError),
    }
}

/// What the literal lexeme at the `#` at `i` is: `#`, a radix prefix and
/// hexadecimal digits, or `#` and decimal digits; anything else is just the
/// `#`, a syntax error.
pub open spec fn literal_lexeme(cs: Seq<char>, i: int, j: int, res: Result<Token, ErrorKind>) -> bool {
    if i + 1 < cs.len() && radix_of(cs[i + 1]) != 0 && digits_end(cs, i + 2, 16) > i + 2 {
        let e = digits_end(cs, i + 2, 16);
        j == e && res == number_result(parse_spec(cs.subrange(i + 2, e), radix_of(cs[i + 1])))
    } else if i + 1 < cs.len() && radix_of(cs[i + 1]) == 0 && digits_end(cs, i + 1, 10) > i + 1 {
        let e = digits_end(cs, i + 1, 10);
        j == e && res == number_result(parse_spec(cs.subrange(i + 1, e), 10))
    } else {
        j == i + 1 && res == Err::<Token, ErrorKind>(ErrorKind::SyntaxError)
    }
}

/// Reads a literal starting at the `#` at `i`: `#` and a radix prefix
/// followed by hexadecimal digits, or `#` followed by decimal digits. The
/// digits must be valid in the radix and the value must fit in a word.
pub fn lex_literal(cs: &[char], i: usize) -> (r: (usize, Result<Token, ErrorKind>))
    requires
        i < cs@.len(),
        cs@[i as int] == '#',
    ensures
        i < r.0 <= cs@.len(),
        r.1 is Ok ==> r.1->Ok_0 is Literal && i + 1 < cs@.len(),
        r.1 is Err ==> r.1->Err_0 == ErrorKind::ParseIntError || r.1->Err_0 == ErrorKind::SyntaxError,
        r.1 is Ok && i + 1 < cs@.len() && radix_of(cs@[i + 1]) == 0 ==> r.1->Ok_0
            == Token::Literal(parse_spec(cs@.subrange(i + 1, r.0 as int), 10)->Some_0),
        r.1 is Ok && i + 1 < cs@.len() && radix_of(cs@[i + 1]) != 0 ==> r.1->Ok_0
            == Token::Literal(parse_spec(cs@.subrange(i + 2, r.0 as int), radix_of(cs@[i + 1]))->Some_0),
        literal_lexeme(cs@, i as int, r.0 as int, r.1),
{
    let n = cs.len();
    if i + 1 < n {
        let radix = prefix_radix(cs[i + 1]);
        if radix != 0 {
            let j = scan_digits(cs, i + 2, 16);
            if j > i + 2 {
                return (j, match parse_radix(cs, i + 2, j, radix) {
                    Some(v) => Ok(Token::Literal(v)),
                    None => Err(ErrorKind::ParseIntError),
                });
            }
        } else {
            let j = scan_digits(cs, i + 1, 10);
            if j > i + 1 {
                return (j, match parse_radix(cs, i + 1, j, 10) {
                    Some(v) => Ok(Token::Literal(v)),
                    None => Err(ErrorKind::ParseIntError),
                });
            }
        }
    }
    (i + 1, Err(ErrorKind::SyntaxError))
}

/// Reads `(word)` starting at the `(` at `i`.
pub fn lex_indirect(cs: &[char], i: usize) -> (r: (usize, Result<Token, ErrorKind>))
    requires
        i < cs@.len(),
        cs@[i as int] == '(',
    ensures
        i < r.0 <= cs@.len(),
        r.1 is Ok ==> r.0 >= i + 2 && cs@[r.0 - 1] == ')' && r.1->Ok_0 is Indirect && r.1->Ok_0->Indirect_0@
            == cs@.subrange(i + 1, r.0 - 1) && forall|k: int| i + 1 <= k < r.0 - 1 ==> word_char(#[trigger] cs@[k]),
        r.1 is Err ==> r.1->Err_0 == ErrorKind::SyntaxError && r.0 == i + 1,
{
    let n = cs.len();
    assert(i + 1 <= n);
    let j = scan_word(cs, i + 1);
    if j < cs.len() && cs[j] == ')' {
        let s = string_from_chars(&cs[i + 1..j]);
        proof {
            assert(cs@.subrange(i + 1, j as int) =~= cs@.subrange(i + 1, (j + 1) - 1));
        }
        (j + 1, Ok(Token::Indirect(s)))
    } else {
        (i + 1, Err(ErrorKind::SyntaxError))
    }
}

/// What the block lexeme at the `[` at `i` is: `[`, decimal digits, `;`,
/// decimal digits and `]`; anything else is just the `[`, a syntax error.
pub open spec fn linear_lexeme(cs: Seq<char>, i: int, j: int, res: Result<LinearMemory, ErrorKind>) -> bool {
    let a = digits_end(cs, i + 1, 10);
    let b = digits_end(cs, a + 1, 10);
    if a > i + 1 && a < cs.len() && cs[a] == ';' && b > a + 1 && b < cs.len() && cs[b] == ']' {
        &&& j == b + 1
        &&& res == match (parse_spec(cs.subrange(i + 1, a), 10), parse_spec(cs.subrange(a + 1, b), 10)) {
            (Some(init), Some(len)) => Ok(LinearMemory { init, len }),
            _ => Err(ErrorKind::ParseIntError),
        }
    } else {
        j == i + 1 && res == Err::<LinearMemory, ErrorKind>(ErrorKind::SyntaxError)
    }
}

impl LinearMemory {
    /// Reads `[init;len]` starting at the `[` at `i`.
    pub fn from_str(cs: &[char], i: usize) -> (r: (usize, Result<LinearMemory, ErrorKind>))
        requires
            i < cs@.len(),
            cs@[i as int] == '[',
        ensures
            i < r.0 <= cs@.len(),
            r.1 is Err ==> r.1->Err_0 == ErrorKind::ParseIntError || r.1->Err_0 == ErrorKind::SyntaxError,
            r.1 is Ok ==> exists|a: int|
                i + 1 < a < r.0 - 1 && #[trigger] cs@[a] == ';' && cs@[r.0 - 1] == ']' && parse_spec(
                    cs@.subrange(i + 1, a),
                    10,
                ) == Some(r.1->Ok_0.init) && parse_spec(cs@.subrange(a + 1, r.0 - 1), 10) == Some(
                    r.1->Ok_0.len,
                ),
            linear_lexeme(cs@, i as int, r.0 as int, r.1),
    {
        let n = cs.len();
        assert(i + 1 <= n);
        let a = scan_digits(cs, i + 1, 10);
        if a > i + 1 && a < cs.len() && cs[a] == ';' {
            let b = scan_digits(cs, a + 1, 10);
            if b > a + 1 && b < cs.len() && cs[b] == ']' {
                let r = match (parse_radix(cs, i + 1, a, 10), parse_radix(cs, a + 1, b, 10)) {
                    (Some(init), Some(len)) => Ok(LinearMemory { init, len }),
                    _ => Err(ErrorKind::ParseIntError),
                };
                proof {
                    assert((b + 1) - 1 == b);
                }
                return (b + 1, r);
            }
        }
        (i + 1, Err(ErrorKind::SyntaxError))
    }
}

/// A token with the byte range it came from.
pub type Spanned = (Span, Token);

/// The lexeme from `i` to `j` and what it gives: nothing for a blank or a
/// comment, a token, or an error.
pub open spec fn lexeme(cs: Seq<char>, i: int, j: int, res: Option<Result<Token, ErrorKind>>) -> bool {
    &&& 0 <= i < j <= cs.len()
    &&& (cs[i] == ' ' || cs[i] == '\t') ==> res is None && j == i + 1
    &&& cs[i] == '\n' ==> res == Some(Ok::<Token, ErrorKind>(Token::Newline)) && j == i + 1
    &&& cs[i] == '\r' ==> if i + 1 < cs.len() && cs[i + 1] == '\n' {
        res == Some(Ok::<Token, ErrorKind>(Token::Newline)) && j == i + 2
    } else {
        res == Some(Err::<Token, ErrorKind>(ErrorKind::SyntaxError)) && j == i + 1
    }
    &&& cs[i] == '/' ==> if i + 1 < cs.len() && cs[i + 1] == '/' {
        res is None && run_end(cs, i + 2, j, |c: char| c != '\n' && c != '\r')
    } else {
        res == Some(Err::<Token, ErrorKind>(ErrorKind::SyntaxError)) && j == i + 1
    }
    &&& cs[i] == ':' ==> res == Some(Ok::<Token, ErrorKind>(Token::Colon)) && j == i + 1
    &&& cs[i] == ',' ==> res == Some(Ok::<Token, ErrorKind>(Token::Comma)) && j == i + 1
    &&& word_char(cs[i]) ==> run_end(cs, i, j, |c: char| word_char(c)) && res is Some && match res->Some_0 {
        Ok(t) => word_token_ok(cs.subrange(i, j), t),
        Err(e) => e == ErrorKind::ParseIntError && number_word(cs.subrange(i, j)) && parse_spec(cs.subrange(i, j), 10) is None,
    }
    &&& cs[i] == '#' ==> res is Some && literal_lexeme(cs, i, j, res->Some_0)
    &&& cs[i] == '(' ==> res is Some && match res->Some_0 {
        Ok(t) => t is Indirect && t->Indirect_0@ == cs.subrange(i + 1, j - 1) && cs[j - 1] == ')',
        Err(e) => e == ErrorKind::SyntaxError && j == i + 1,
    }
    &&& cs[i] == '[' ==> res is Some && exists|m: Result<LinearMemory, ErrorKind>| linear_lexeme(cs, i, j, m) && res->Some_0 == match m {
        Ok(m) => Ok(Token::LinearMemory(m)),
        Err(e) => Err(e),
    }
    &&& !(word_char(cs[i]) || cs[i] == ' ' || cs[i] == '\t' || cs[i] == '\n' || cs[i] == '\r' || cs[i] == '/'
        || cs[i] == ':' || cs[i] == ',' || cs[i] == '#' || cs[i] == '(' || cs[i] == '[') ==> j == i + 1
        && res == Some(Err::<Token, ErrorKind>(ErrorKind::SyntaxError))
}

/// Reads one lexeme at `i`: a token, an error, or nothing for blanks and
/// comments.
pub fn lex_one(cs: &[char], i: usize) -> (r: (usize, Option<Result<Token, ErrorKind>>))
    requires
        i < cs@.len(),
    ensures
        lexeme(cs@, i as int, r.0 as int, r.1),
{
    let c = cs[i];
    if c == ' ' || c == '\t' {
        (i + 1, None)
    } else if c == '\n' {
        (i + 1, Some(Ok(Token::Newline)))
    } else if c == '\r' {
        if i + 1 < cs.len() && cs[i + 1] == '\n' {
            (i + 2, Some(Ok(Token::Newline)))
        } else {
            (i + 1, Some(Err(ErrorKind::SyntaxError)))
        }
    } else if c == '/' {
        if i + 1 < cs.len() && cs[i + 1] == '/' {
            let mut j = i + 2;
            while j < cs.len() && cs[j] != '\n' && cs[j] != '\r'
                invariant
                    i + 2 <= j <= cs@.len(),
                    forall|k: int| i + 2 <= k < j ==> (#[trigger] cs@[k]) != '\n' && cs@[k] != '\r',
                decreases cs.len() - j,
            {
                j += 1;
            }
            (j, None)
        } else {
            (i + 1, Some(Err(ErrorKind::SyntaxError)))
        }
    } else if c == ':' {
        (i + 1, Some(Ok(Token::Colon)))
    } else if c == ',' {
        (i + 1, Some(Ok(Token::Comma)))
    } else if c == '#' {
        let (j, t) = lex_literal(cs, i);
        (j, Some(t))
    } else if c == '(' {
        let (j, t) = lex_indirect(cs, i);
        (j, Some(t))
    } else if c == '[' {
        let (j, m) = LinearMemory::from_str(cs, i);
        (j, Some(match m {
            Ok(m) => Ok(Token::LinearMemory(m)),
            Err(e) => Err(e),
        }))
    } else if is_word_char(c) {
        let j = scan_word(cs, i);
        (j, Some(word_token(cs, i, j)))
    } else {
        (i + 1, Some(Err(ErrorKind::SyntaxError)))
    }
}

/// The span of the lexeme from character `i` to character `j`.
pub open spec fn span_of(cs: Seq<char>, i: int, j: int) -> Span {
    Span { start: byte_offset(cs, i) as usize, end: byte_offset(cs, j) as usize }
}

/// `entries` with `(span, kind)` added unless the span already has an error.
pub open spec fn add_first(entries: Seq<(Span, ErrorKind)>, span: Span, kind: ErrorKind) -> Seq<(Span, ErrorKind)> {
    if exists|i: int| 0 <= i < entries.len() && (#[trigger] entries[i]).0 == span {
        entries
    } else {
        entries.push((span, kind))
    }
}

/// The lines and errors that the first `n` lexemes make: tokens are added
/// to the current line, a newline starts a new line, and errors are kept
/// by span.
pub open spec fn assemble(
    cs: Seq<char>,
    bounds: Seq<int>,
    results: Seq<Option<Result<Token, ErrorKind>>>,
    n: int,
) -> (Seq<Seq<Spanned>>, Seq<(Span, ErrorKind)>)
    decreases n,
{
    if n <= 0 {
        (seq![Seq::empty()], Seq::empty())
    } else {
        let (ls, es) = assemble(cs, bounds, results, n - 1);
        let span = span_of(cs, bounds[n - 1], bounds[n]);
        match results[n - 1] {
            None => (ls, es),
            Some(Ok(Token::Newline)) => (ls.push(Seq::empty()), es),
            Some(Ok(t)) => (ls.update(ls.len() - 1, ls.last().push((span, t))), es),
            Some(Err(e)) => (ls, add_first(es, span, e)),
        }
    }
}

/// The lexemes so far assemble the same way when more follow.
proof fn lemma_assemble_prefix(
    cs: Seq<char>,
    b1: Seq<int>,
    r1: Seq<Option<Result<Token, ErrorKind>>>,
    b2: Seq<int>,
    r2: Seq<Option<Result<Token, ErrorKind>>>,
    n: int,
)
    requires
        0 <= n <= r1.len(),
        n <= r2.len(),
        n < b1.len(),
        n < b2.len(),
        forall|k: int| 0 <= k <= n ==> b1[k] == b2[k],
        forall|k: int| 0 <= k < n ==> r1[k] == r2[k],
    ensures
        assemble(cs, b1, r1, n) == assemble(cs, b2, r2, n),
    decreases n,
{
    if n > 0 {
        lemma_assemble_prefix(cs, b1, r1, b2, r2, n - 1);
    }
}

/// `ls` and `es` are the lines and errors of a text: the text is cut into
/// lexemes from start to end, each as `lexeme` describes, and they
/// assemble into exactly these lines and errors.
pub open spec fn lexed(src: Seq<char>, ls: Seq<Seq<Spanned>>, es: Seq<(Span, ErrorKind)>) -> bool {
    exists|bounds: Seq<int>, results: Seq<Option<Result<Token, ErrorKind>>>| {
        &&& bounds.len() == results.len() + 1
        &&& bounds[0] == 0
        &&& bounds[results.len() as int] == src.len()
        &&& forall|k: int| 0 <= k < results.len() ==> lexeme(src, #[trigger] bounds[k], bounds[k + 1], results[k])
        &&& #[trigger] assemble(src, bounds, results, results.len() as int) == (ls, es)
    }
}

/// `out` and the line being built are the lines of `assemble`.
pub open spec fn lines_view(out: Seq<Vec<Spanned>>, cur: Seq<Spanned>) -> Seq<Seq<Spanned>> {
    out.map_values(|l: Vec<Spanned>| l@).push(cur)
}

/// Lexes a whole source: the tokens of each line, newlines dropped, and the
/// lexical errors by span. There is always at least one line.
pub fn lines(src: &str) -> (r: (Vec<Vec<Spanned>>, ErrorMap))
    ensures
        r.0@.len() >= 1,
        r.1.wf(),
        forall|l: int, k: int|
            0 <= l < r.0@.len() && 0 <= k < r.0@[l]@.len() ==> !((#[trigger] r.0@[l]@[k]).1 is Newline),
        forall|l: int, k: int|
            0 <= l < r.0@.len() && 0 <= k < r.0@[l]@.len() ==> (#[trigger] r.0@[l]@[k]).0.start <= r.0@[l]@[k].0.end,
        forall|l: int, j: int, k: int|
            0 <= l < r.0@.len() && 0 <= j < k < r.0@[l]@.len() ==> (#[trigger] r.0@[l]@[j]).0.end
                <= (#[trigger] r.0@[l]@[k]).0.start,
        forall|l1: int, l2: int, j: int, k: int|
            0 <= l1 < l2 < r.0@.len() && 0 <= j < r.0@[l1]@.len() && 0 <= k < r.0@[l2]@.len() ==> (
            #[trigger] r.0@[l1]@[j]).0.end <= (#[trigger] r.0@[l2]@[k]).0.start,
        lexed(src@, r.0@.map_values(|l: Vec<Spanned>| l@), r.1.entries@),
{
    let cs = chars_of(src);
    let offs = byte_offsets(cs.as_slice());
    let mut out: Vec<Vec<Spanned>> = Vec::new();
    let mut cur: Vec<Spanned> = Vec::new();
    let mut errs = ErrorMap::new();
    let mut i: usize = 0;
    let ghost mut bounds: Seq<int> = seq![0int];
    let ghost mut results: Seq<Option<Result<Token, ErrorKind>>> = Seq::empty();
    proof {
        assert(lines_view(out@, cur@) =~= seq![Seq::<Spanned>::empty()]);
    }
    while i < cs.len()
        invariant
            i <= cs@.len(),
            cs@ == src@,
            forall|a: int| 0 <= a <= cs@.len() ==> #[trigger] offs@[a] == byte_offset(cs@, a),
            bounds.len() == results.len() + 1,
            bounds[0] == 0,
            bounds[results.len() as int] == i,
            forall|k: int| 0 <= k < results.len() ==> lexeme(src@, #[trigger] bounds[k], bounds[k + 1], results[k]),
            assemble(src@, bounds, results, results.len() as int) == (lines_view(out@, cur@), errs.entries@),
            offs@.len() == cs@.len() + 1,
            forall|a: int, b: int| 0 <= a <= b <= cs@.len() ==> (#[trigger] offs@[a]) <= (#[trigger] offs@[b]),
            errs.wf(),
            forall|l: int, k: int|
                0 <= l < out@.len() && 0 <= k < out@[l]@.len() ==> !((#[trigger] out@[l]@[k]).1 is Newline),
            forall|k: int| 0 <= k < cur@.len() ==> !((#[trigger] cur@[k]).1 is Newline),
            forall|l: int, k: int|
                0 <= l < out@.len() && 0 <= k < out@[l]@.len() ==> (#[trigger] out@[l]@[k]).0.start <= out@[l]@[k].0.end
                    && out@[l]@[k].0.end <= offs@[i as int],
            forall|k: int| 0 <= k < cur@.len() ==> (#[trigger] cur@[k]).0.start <= cur@[k].0.end && cur@[k].0.end <= offs@[i as int],
            forall|l: int, j: int, k: int|
                0 <= l < out@.len() && 0 <= j < k < out@[l]@.len() ==> (#[trigger] out@[l]@[j]).0.end
                    <= (#[trigger] out@[l]@[k]).0.start,
            forall|j: int, k: int| 0 <= j < k < cur@.len() ==> (#[trigger] cur@[j]).0.end <= (#[trigger] cur@[k]).0.start,
            forall|l1: int, l2: int, j: int, k: int|
                0 <= l1 < l2 < out@.len() && 0 <= j < out@[l1]@.len() && 0 <= k < out@[l2]@.len() ==> (
                #[trigger] out@[l1]@[j]).0.end <= (#[trigger] out@[l2]@[k]).0.start,
            forall|l: int, j: int, k: int|
                0 <= l < out@.len() && 0 <= j < out@[l]@.len() && 0 <= k < cur@.len() ==> (
                #[trigger] out@[l]@[j]).0.end <= (#[trigger] cur@[k]).0.start,
        decreases cs.len() - i,
    {
        let (j, t) = lex_one(cs.as_slice(), i);
        let span = Span { start: offs[i], end: offs[j] };
        let ghost n = results.len() as int;
        let ghost prev = assemble(src@, bounds, results, n);
        let ghost old_out = out@;
        let ghost old_cur = cur@;
        let ghost old_errs = errs.entries@;
        proof {
            let nb = bounds.push(j as int);
            let nr = results.push(t);
            lemma_assemble_prefix(src@, bounds, results, nb, nr, n);
            bounds = nb;
            results = nr;
            assert(span == span_of(src@, bounds[n], bounds[n + 1]));
        }
        match t {
            None => {},
            Some(Ok(Token::Newline)) => {
                out.push(cur);
                cur = Vec::new();
            },
            Some(Ok(tok)) => {
                cur.push((span, tok));
            },
            Some(Err(e)) => {
                let ghost em = errs;
                errs.push_error(span, e);
                proof {
                    assert(em.spans().contains(span) <==> exists|k: int| 0 <= k < old_errs.len() && (#[trigger] old_errs[k]).0 == span);
                    assert(errs.entries@ == add_first(old_errs, span, e));
                }
            },
        }
        proof {
            assert(assemble(src@, bounds, results, n + 1) == (lines_view(out@, cur@), errs.entries@));
        }
        i = j;
    }
    let ghost before = out@;
    let ghost last = cur@;
    out.push(cur);
    proof {
        assert(out@.map_values(|l: Vec<Spanned>| l@) =~= lines_view(before, last));
    }
    proof {
        assert forall|l1: int, l2: int, j: int, k: int|
            0 <= l1 < l2 < out@.len() && 0 <= j < out@[l1]@.len() && 0 <= k < out@[l2]@.len() implies (
            #[trigger] out@[l1]@[j]).0.end <= (#[trigger] out@[l2]@[k]).0.start by {
            assert(out@[l1] == before[l1]);
            if l2 < before.len() {
                assert(out@[l2] == before[l2]);
            }
        }
    }
    (out, errs)
}

/// Tokens that may stand in an operand list.
pub open spec fn operand_token(t: Token) -> bool {
    t is Gpr || t is BareNumber || t is Text || t is Comma || t is Literal || t is Indirect
}

/// What operand a token denotes.
pub open spec fn token_op(t: Token, r: Op) -> bool {
    match t {
        Token::BareNumber(a) => r == Op::Addr(a),
        Token::Gpr(n) => r == Op::Gpr(n),
        Token::Literal(v) => r == Op::Literal(v),
        Token::Text(s) => if upper_seq(s@) == upper_seq("ACC"@) {
            r == Op::Acc
        } else if upper_seq(s@) == upper_seq("CMP"@) {
            r == Op::Cmp
        } else if upper_seq(s@) == upper_seq("IX"@) {
            r == Op::Ix
        } else if upper_seq(s@) == upper_seq("AR"@) {
            r == Op::Ar
        } else {
            r == Op::Fail(s)
        },
        Token::Indirect(s) => r is Indirect && text_op(s@, *r->Indirect_0),
        _ => r == Op::Null,
    }
}

impl Token {
    /// The operand this token denotes.
    pub fn to_op(&self) -> (r: Op)
        ensures
            token_op(*self, r),
    {
        match self {
            Token::BareNumber(a) => Op::Addr(*a),
            Token::Gpr(n) => Op::Gpr(*n),
            Token::Literal(v) => Op::Literal(*v),
            Token::Text(s) => {
                let cs = chars_of(s.as_str());
                if eq_ignore_case(cs.as_slice(), "ACC") {
                    Op::Acc
                } else if eq_ignore_case(cs.as_slice(), "CMP") {
                    Op::Cmp
                } else if eq_ignore_case(cs.as_slice(), "IX") {
                    Op::Ix
                } else if eq_ignore_case(cs.as_slice(), "AR") {
                    Op::Ar
                } else {
                    Op::Fail(s.clone())
                }
            },
            Token::Indirect(s) => Op::Indirect(Box::new(Op::parse(s.as_str()))),
            _ => Op::Null,
        }
    }
}

} // verus!
