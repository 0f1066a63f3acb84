//! Character-level helpers: converting between strings and characters,
//! letter case, and reading and writing numbers in a radix.

use vstd::prelude::*;
use vstd::std_specs::iter::IteratorSpec;

verus! {

broadcast use vstd::string::group_string_axioms;

/// The characters of a string.
pub fn chars_of(s: &str) -> (r: Vec<char>)
    ensures
        r@ == s@,
{
    let mut it = s.chars();
    let mut out: Vec<char> = Vec::new();
    loop
        invariant
            out@ + it.remaining() == s@,
            it.decrease() is Some,
        decreases it.decrease()->0,
    {
        match it.next() {
            Some(c) => {
                out.push(c);
            },
            None => {
                return out;
            },
        }
    }
}

/// Relies on `String`'s `FromIterator<char>`: the string holds exactly the
/// given characters, in order.
#[verifier::external_body]
pub(crate) fn string_from_chars(cs: &[char]) -> (r: String)
    ensures
        r@ == cs@,
{
    cs.iter().collect()
}

/// A letter in upper case; other characters are unchanged.
pub open spec fn ascii_upper(c: char) -> char {
    if 'a' <= c && c <= 'z' {
        (((c as u8) - 32) as u8) as char
    } else {
        c
    }
}

/// A string in upper case, letter by letter.
pub open spec fn upper_seq(s: Seq<char>) -> Seq<char> {
    s.map_values(|c: char| ascii_upper(c))
}

/// Upper-cases one letter.
pub fn to_ascii_upper(c: char) -> (r: char)
    ensures
        r == ascii_upper(c),
{
    if 'a' <= c && c <= 'z' {
        ((c as u8) - 32) as char
    } else {
        c
    }
}

/// Compares a run of characters with a string, ignoring letter case.
pub fn eq_ignore_case(a: &[char], b: &str) -> (r: bool)
    ensures
        r == (upper_seq(a@) == upper_seq(b@)),
{
    let bs = chars_of(b);
    if a.len() != bs.len() {
        proof {
            assert(upper_seq(a@).len() != upper_seq(b@).len());
        }
        return false;
    }
    let mut i: usize = 0;
    while i < a.len()
        invariant
            a.len() == bs.len(),
            bs@ == b@,
            i <= a.len(),
            forall|j: int| 0 <= j < i ==> ascii_upper(a@[j]) == ascii_upper(bs@[j]),
        decreases a.len() - i,
    {
        if to_ascii_upper(a[i]) != to_ascii_upper(bs[i]) {
            proof {
                assert(upper_seq(a@)[i as int] != upper_seq(b@)[i as int]);
            }
            return false;
        }
        i += 1;
    }
    proof {
        assert(upper_seq(a@) =~= upper_seq(b@));
    }
    true
}

/// The value of a digit in radix 16 or less, or `None` for any other character.
pub open spec fn digit_spec(c: char) -> Option<nat> {
    if '0' <= c && c <= '9' {
        Some((c as nat - '0' as nat) as nat)
    } else if 'a' <= c && c <= 'f' {
        Some((c as nat - 'a' as nat + 10) as nat)
    } else if 'A' <= c && c <= 'F' {
        Some((c as nat - 'A' as nat + 10) as nat)
    } else {
        None
    }
}

/// A digit of the given radix.
pub open spec fn is_digit_of(c: char, radix: nat) -> bool {
    digit_spec(c) is Some && digit_spec(c)->Some_0 < radix
}

/// Every character is a digit of the radix.
pub open spec fn all_digits(s: Seq<char>, radix: nat) -> bool {
    forall|i: int| 0 <= i < s.len() ==> is_digit_of(#[trigger] s[i], radix)
}

/// The number a run of digits denotes, most significant first.
pub open spec fn digits_value(s: Seq<char>, radix: nat) -> nat
    decreases s.len(),
{
    if s.len() == 0 {
        0
    } else {
        digits_value(s.drop_last(), radix) * radix + digit_spec(s.last())->Some_0
    }
}

/// The number a run of digits denotes, if the run is non-empty, made of
/// digits of the radix, and its value fits in a machine word.
pub open spec fn parse_spec(s: Seq<char>, radix: nat) -> Option<usize> {
    if s.len() > 0 && all_digits(s, radix) && digits_value(s, radix) <= usize::MAX {
        Some(digits_value(s, radix) as usize)
    } else {
        None
    }
}

/// The value of one digit.
pub fn digit_value(c: char) -> (r: Option<u32>)
    ensures
        r is Some <==> digit_spec(c) is Some,
        r is Some ==> r->Some_0 as nat == digit_spec(c)->Some_0,
{
    if '0' <= c && c <= '9' {
        Some((c as u32) - ('0' as u32))
    } else if 'a' <= c && c <= 'f' {
        Some((c as u32) - ('a' as u32) + 10)
    } else if 'A' <= c && c <= 'F' {
        Some((c as u32) - ('A' as u32) + 10)
    } else {
        None
    }
}

proof fn lemma_digits_value_mono(s: Seq<char>, radix: nat, i: int)
    requires
        0 <= i <= s.len(),
        radix >= 1,
    ensures
        digits_value(s.subrange(0, i), radix) <= digits_value(s, radix),
    decreases s.len() - i,
{
    if i < s.len() {
        lemma_digits_value_mono(s, radix, i + 1);
        let t = s.subrange(0, i + 1);
        assert(t.drop_last() =~= s.subrange(0, i));
        let v = digits_value(s.subrange(0, i), radix);
        assert(v * radix >= v) by (nonlinear_arith)
            requires radix >= 1;
    } else {
        assert(s.subrange(0, i) =~= s);
    }
}

/// Reads the digits `cs[start..end]` in the given radix, as
/// `usize::from_str_radix` does on digits alone.
pub fn parse_radix(cs: &[char], start: usize, end: usize, radix: u32) -> (r: Option<usize>)
    requires
        start <= end <= cs@.len(),
        2 <= radix <= 16,
    ensures
        r == parse_spec(cs@.subrange(start as int, end as int), radix as nat),
{
    let ghost s = cs@.subrange(start as int, end as int);
    if start == end {
        return None;
    }
    let mut acc: usize = 0;
    let mut i: usize = start;
    while i < end
        invariant
            start <= i <= end <= cs@.len(),
            s == cs@.subrange(start as int, end as int),
            2 <= radix <= 16,
            all_digits(s.subrange(0, i - start), radix as nat),
            acc as nat == digits_value(s.subrange(0, i - start), radix as nat),
        decreases end - i,
    {
        let ghost prefix = s.subrange(0, i - start + 1);
        proof {
            assert(prefix.drop_last() =~= s.subrange(0, i - start));
            assert(prefix.last() == cs@[i as int]);
        }
        let d = match digit_value(cs[i]) {
            Some(d) => d,
            None => {
                proof {
                    assert(!is_digit_of(s[i - start], radix as nat));
                }
                return None;
            },
        };
        if d >= radix {
            proof {
                assert(!is_digit_of(s[i - start], radix as nat));
            }
            return None;
        }
        if acc > (usize::MAX - d as usize) / radix as usize {
            proof {
                let r = radix as int;
                let a = acc as int;
                let dd = d as int;
                assert(a * r + dd > usize::MAX) by (nonlinear_arith)
                    requires a > (usize::MAX - dd) / r, r >= 2, dd >= 0;
                assert(digits_value(prefix, radix as nat) == a * r + dd);
                lemma_digits_value_mono(s, radix as nat, i - start + 1);
            }
            return None;
        }
        proof {
            let r = radix as int;
            let a = acc as int;
            let dd = d as int;
            assert(a * r + dd <= usize::MAX) by (nonlinear_arith)
                requires a <= (usize::MAX - dd) / r, r >= 2, dd >= 0, a >= 0;
        }
        acc = acc * radix as usize + d as usize;
        i += 1;
        proof {
            assert(all_digits(s.subrange(0, i - start), radix as nat)) by {
                assert forall|j: int| 0 <= j < i - start implies is_digit_of(
                    #[trigger] s.subrange(0, i - start)[j],
                    radix as nat,
                ) by {
                    if j < i - start - 1 {
                        assert(s.subrange(0, i - start)[j] == s.subrange(0, i - start - 1)[j]);
                    }
                }
            }
        }
    }
    proof {
        assert(s.subrange(0, i - start) =~= s);
    }
    Some(acc)
}

/// Appends the characters of a string.
pub fn extend_str(v: &mut Vec<char>, t: &str)
    ensures
        final(v)@ == old(v)@ + t@,
{
    let cs = chars_of(t);
    extend_chars(v, cs.as_slice());
}

/// Appends characters.
pub fn extend_chars(v: &mut Vec<char>, cs: &[char])
    ensures
        final(v)@ == old(v)@ + cs@,
{
    let mut i: usize = 0;
    while i < cs.len()
        invariant
            i <= cs.len(),
            v@ == old(v)@ + cs@.subrange(0, i as int),
        decreases cs.len() - i,
    {
        v.push(cs[i]);
        i += 1;
        proof {
            assert(cs@.subrange(0, i as int) =~= cs@.subrange(0, i - 1).push(cs@[i - 1]));
        }
    }
    proof {
        assert(cs@.subrange(0, i as int) =~= cs@);
    }
}

/// A digit character in radix 16 or less, upper case.
pub open spec fn digit_char(d: nat) -> char {
    if d < 10 {
        ('0' as nat + d) as char
    } else {
        ('A' as nat + d - 10) as char
    }
}

/// The digits of a number in a radix, most significant first.
pub open spec fn radix_spec(n: nat, radix: nat) -> Seq<char>
    decreases n,
{
    if n < radix || radix < 2 {
        seq![digit_char(n % radix)]
    } else {
        proof {
            assert(n / radix < n) by (nonlinear_arith)
                requires
                    radix >= 2,
                    n >= radix,
            ;
        }
        radix_spec(n / radix, radix).push(digit_char(n % radix))
    }
}

/// Writes a number in a radix from 2 to 16, with upper-case letters.
pub fn radix_digits(n: u128, radix: u128) -> (r: Vec<char>)
    requires
        2 <= radix <= 16,
    ensures
        r@ == radix_spec(n as nat, radix as nat),
    decreases n,
{
    let d = n % radix;
    let c: char = if d < 10 {
        ((48u128 + d) as u8) as char
    } else {
        ((55u128 + d) as u8) as char
    };
    if n < radix {
        let mut v = Vec::new();
        v.push(c);
        proof {
            assert(v@ =~= radix_spec(n as nat, radix as nat));
        }
        v
    } else {
        proof {
            assert(n / radix < n) by (nonlinear_arith)
                requires
                    radix >= 2,
                    n >= radix,
            ;
        }
        let mut v = radix_digits(n / radix, radix);
        v.push(c);
        v
    }
}

} // verus!
