//! Unsigned decimal numerals: digits, with one `+` allowed in front.

use crate::text::free_of;
use vstd::prelude::*;

verus! {

/// `c` is one of the ten decimal digits.
pub open spec fn is_digit(c: char) -> bool {
    '0' <= c && c <= '9'
}

/// What a digit counts for; 0 for any other character.
pub open spec fn digit_value(c: char) -> nat {
    if is_digit(c) {
        (c as int - '0' as int) as nat
    } else {
        0
    }
}

/// `s` is not empty and holds digits only.
pub open spec fn is_numeral(s: Seq<char>) -> bool {
    s.len() > 0 && forall|k: int| 0 <= k < s.len() ==> is_digit(#[trigger] s[k])
}

/// The number that the digits of `s` write in base ten.
pub open spec fn decimal_value(s: Seq<char>) -> nat
    decreases s.len(),
{
    if s.len() == 0 {
        0
    } else {
        decimal_value(s.drop_last()) * 10 + digit_value(s.last())
    }
}

/// `s` after a leading `+`, if it has one.
pub open spec fn unsigned_part(s: Seq<char>) -> Seq<char> {
    if s.len() > 0 && s[0] == '+' {
        s.skip(1)
    } else {
        s
    }
}

/// The number that `s` writes: digits after at most one `+`, however many.
/// `None` for anything else.
pub open spec fn parsed(s: Seq<char>) -> Option<nat> {
    let digits = unsigned_part(s);
    if is_numeral(digits) {
        Some(decimal_value(digits))
    } else {
        None
    }
}

/// `n` itself where a `usize` holds it, the largest `usize` where not.
pub open spec fn clamped(n: nat) -> usize {
    if n <= usize::MAX {
        n as usize
    } else {
        usize::MAX
    }
}

/// A numeral holds nothing that is no digit.
pub proof fn lemma_numeral_is_free(s: Seq<char>, c: char)
    requires
        is_numeral(s),
        !is_digit(c),
    ensures
        free_of(s, c),
{
    assert forall|k: int| 0 <= k < s.len() implies s[k] != c by {
        assert(is_digit(s[k]));
    }
}

/// A sequence with anything but a digit in it writes no number, unless that
/// is a `+` in front.
pub proof fn lemma_non_digit_is_no_number(s: Seq<char>, at: int)
    requires
        0 <= at < s.len(),
        !is_digit(s[at]),
        at > 0 || s[0] != '+',
    ensures
        parsed(s) is None,
{
    let digits = unsigned_part(s);
    if s[0] == '+' {
        assert(digits[at - 1] == s[at]);
    } else {
        assert(digits[at] == s[at]);
    }
}

/// Reads `s` as an unsigned decimal number. A number too large for a `usize`
/// is read as the largest `usize`.
pub fn parse_decimal(s: &Vec<char>) -> (out: Option<usize>)
    ensures
        out == match parsed(s@) {
            Some(n) => Some(clamped(n)),
            None => None,
        },
{
    let start: usize = if s.len() > 0 && s[0] == '+' {
        1
    } else {
        0
    };
    if start == s.len() {
        return None;
    }
    let ghost digits = unsigned_part(s@);
    assert(digits =~= s@.skip(start as int));
    let mut acc: usize = 0;
    let mut i: usize = start;
    assert(digits.take(0) =~= Seq::<char>::empty());
    while i < s.len()
        invariant
            start <= i <= s.len(),
            start < s.len(),
            digits == s@.skip(start as int),
            digits == unsigned_part(s@),
            forall|k: int| 0 <= k < i - start ==> is_digit(#[trigger] digits[k]),
            acc == clamped(decimal_value(digits.take(i - start))),
        decreases s.len() - i,
    {
        let c: char = s[i];
        assert(digits[i - start] == c);
        if c < '0' || c > '9' {
            assert(!is_digit(digits[i - start]));
            return None;
        }
        let d: usize = (c as u32 - '0' as u32) as usize;
        let ghost next = digits.take(i - start + 1);
        assert(next.drop_last() =~= digits.take(i - start));
        assert(decimal_value(next) == decimal_value(digits.take(i - start)) * 10 + d);
        if acc > (usize::MAX - d) / 10 {
            acc = usize::MAX;
        } else {
            acc = acc * 10 + d;
        }
        i += 1;
    }
    assert(digits.take(i - start) =~= digits);
    Some(acc)
}

} // verus!
