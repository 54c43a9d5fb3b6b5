//! Reading a number from text.

use vstd::prelude::*;
use crate::text::{chars_of, is_space, is_whitespace};

verus! {

/// How many characters of white space `s` starts with.
pub open spec fn leading_space(s: Seq<char>) -> nat
    decreases s.len(),
{
    if s.len() > 0 && is_space(s[0]) {
        1 + leading_space(s.drop_first())
    } else {
        0
    }
}

/// How many characters of white space `s` ends with.
pub open spec fn trailing_space(s: Seq<char>) -> nat
    decreases s.len(),
{
    if s.len() > 0 && is_space(s.last()) {
        1 + trailing_space(s.drop_last())
    } else {
        0
    }
}

/// `s` without the white space at its start and at its end.
pub open spec fn trimmed(s: Seq<char>) -> Seq<char> {
    if leading_space(s) + trailing_space(s) >= s.len() {
        Seq::empty()
    } else {
        s.subrange(leading_space(s) as int, s.len() - trailing_space(s))
    }
}

/// `c` is one of the digits 0 to 9.
pub open spec fn is_digit(c: char) -> bool {
    '0' <= c <= '9'
}

/// The number that a sequence of digits writes in base ten.
pub open spec fn decimal(digits: Seq<char>) -> nat
    decreases digits.len(),
{
    if digits.len() == 0 {
        0
    } else {
        decimal(digits.drop_last()) * 10 + (digits.last() as u32 - '0' as u32) as nat
    }
}

/// The number that digits write, if there is one of them at least, all
/// are digits and the number fits 32 bits.
pub open spec fn numeral(digits: Seq<char>) -> Option<nat> {
    if digits.len() > 0 && (forall|k: int| 0 <= k < digits.len() ==> is_digit(#[trigger] digits[k]))
        && decimal(digits) <= u32::MAX {
        Some(decimal(digits))
    } else {
        None
    }
}

/// The number that `s` writes, if it writes one: a numeral, with or without
/// a plus sign before it.
pub open spec fn number_of(s: Seq<char>) -> Option<nat> {
    if s.len() > 0 && s[0] == '+' {
        numeral(s.drop_first())
    } else {
        numeral(s)
    }
}

/// The number that `s` writes between white space, or zero where it writes
/// none.
pub open spec fn number_or_zero(s: Seq<char>) -> nat {
    match number_of(trimmed(s)) {
        Some(n) => n,
        None => 0,
    }
}

/// More digits do not write a smaller number.
proof fn lemma_decimal_grows(digits: Seq<char>, k: int)
    requires
        0 <= k <= digits.len(),
        forall|p: int| 0 <= p < digits.len() ==> is_digit(#[trigger] digits[p]),
    ensures
        decimal(digits.take(k)) <= decimal(digits),
    decreases digits.len() - k,
{
    if k == digits.len() {
        assert(digits.take(k) =~= digits);
    } else {
        lemma_decimal_grows(digits, k + 1);
        assert(digits.take(k + 1).drop_last() =~= digits.take(k));
        assert(is_digit(digits[k]));
        assert(digits.take(k + 1).last() == digits[k]);
    }
}

/// The ends of `s` once the white space around it is left out.
fn trim_bounds(s: &Vec<char>) -> (ends: (usize, usize))
    ensures
        ends.0 <= ends.1 <= s.len(),
        s@.subrange(ends.0 as int, ends.1 as int) == trimmed(s@),
{
    let mut from: usize = 0;
    proof {
        assert(s@.skip(0) =~= s@);
    }
    while from < s.len() && is_whitespace(s[from])
        invariant
            0 <= from <= s.len(),
            leading_space(s@) == from + leading_space(s@.skip(from as int)),
        decreases s.len() - from,
    {
        proof {
            assert(s@.skip(from as int).drop_first() =~= s@.skip(from + 1));
        }
        from = from + 1;
    }
    let mut to: usize = s.len();
    proof {
        assert(s@.take(to as int) =~= s@);
    }
    while to > from && is_whitespace(s[to - 1])
        invariant
            from <= to <= s.len(),
            trailing_space(s@) == s.len() - to + trailing_space(s@.take(to as int)),
        decreases to,
    {
        proof {
            assert(s@.take(to as int).drop_last() =~= s@.take(to - 1));
        }
        to = to - 1;
    }
    proof {
        let lead = leading_space(s@);
        let trail = trailing_space(s@);
        if from < s.len() {
            assert(s@.skip(from as int)[0] == s[from as int]);
        }
        assert(lead == from);
        if to > from {
            assert(s@.take(to as int).last() == s[to - 1]);
            assert(trail == s.len() - to);
        } else {
            assert(s@.subrange(from as int, to as int) =~= Seq::<char>::empty());
        }
    }
    (from, to)
}

/// The number that `text` writes between white space, or zero where it
/// writes none: digits, with or without a plus sign before them, that make a
/// number of 32 bits.
pub fn parse_number(text: &str) -> (n: u32)
    ensures
        n == number_or_zero(text@),
{
    let s = chars_of(text);
    let (from, to) = trim_bounds(&s);
    let ghost body = trimmed(s@);
    let start = if from < to && s[from] == '+' {
        from + 1
    } else {
        from
    };
    let ghost digits = s@.subrange(start as int, to as int);
    proof {
        assert(body == s@.subrange(from as int, to as int));
        if from < to {
            assert(body[0] == s[from as int]);
        }
        if start > from {
            assert(digits =~= body.drop_first());
        } else {
            assert(digits =~= body);
        }
    }
    proof {
        assert(number_of(trimmed(text@)) == numeral(digits));
    }
    if start == to {
        return 0;
    }
    let mut value: u64 = 0;
    let mut k: usize = start;
    proof {
        assert(digits.take(0) =~= Seq::<char>::empty());
    }
    while k < to
        invariant
            start <= k <= to <= s.len(),
            digits == s@.subrange(start as int, to as int),
            number_of(trimmed(text@)) == numeral(digits),
            forall|p: int| 0 <= p < k - start ==> is_digit(#[trigger] digits[p]),
            value == decimal(digits.take(k - start)),
            value <= u32::MAX,
        decreases to - k,
    {
        let c = s[k];
        proof {
            assert(digits[k - start] == c);
        }
        if !('0' <= c && c <= '9') {
            return 0;
        }
        let d: u64 = (c as u32 - '0' as u32) as u64;
        proof {
            assert(digits.take(k - start + 1).drop_last() =~= digits.take(k - start));
            assert(digits.take(k - start + 1).last() == c);
        }
        value = value * 10 + d;
        if value > 0xFFFF_FFFF {
            proof {
                if forall|p: int| 0 <= p < digits.len() ==> is_digit(#[trigger] digits[p]) {
                    lemma_decimal_grows(digits, k - start + 1);
                }
            }
            return 0;
        }
        k = k + 1;
    }
    proof {
        assert(digits.take(to - start) =~= digits);
    }
    value as u32
}

} // verus!
