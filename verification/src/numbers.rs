//! Numbers in decimal: written out and read back.

use vstd::prelude::*;

verus! {

/// The digit for a number below ten.
pub open spec fn digit(d: int) -> char {
    (48 + d) as char
}

/// A decimal digit.
pub open spec fn is_digit(c: char) -> bool {
    '0' <= c <= '9'
}

/// A number in decimal, without leading zeros.
pub open spec fn decimal(n: nat) -> Seq<char>
    decreases n,
{
    if n < 10 {
        seq![digit(n as int)]
    } else {
        decimal(n / 10).push(digit((n % 10) as int))
    }
}

/// The number that digits stand for.
pub open spec fn value_of(digits: Seq<char>) -> nat
    decreases digits.len(),
{
    if digits.len() == 0 {
        0
    } else {
        value_of(digits.drop_last()) * 10 + (digits.last() as nat - 48) as nat
    }
}

/// Every character is a digit.
pub open spec fn all_digits(s: Seq<char>) -> bool {
    forall|i: int| #![trigger s[i]] 0 <= i < s.len() ==> is_digit(s[i])
}

/// What is left behind a `+` in front.
pub open spec fn unsigned(s: Seq<char>) -> Seq<char> {
    if s.len() > 0 && s[0] == '+' {
        s.skip(1)
    } else {
        s
    }
}

/// The number that a text stands for: digits, perhaps with a `+` in front.
pub open spec fn number(s: Seq<char>) -> Option<nat> {
    if unsigned(s).len() > 0 && all_digits(unsigned(s)) {
        Some(value_of(unsigned(s)))
    } else {
        None
    }
}

/// Reading a number that was written out gives it back.
pub proof fn number_of_decimal(n: nat)
    ensures
        number(decimal(n)) == Some(n),
{
    lemma_decimal(n);
}

/// A number in decimal is digits that stand for it.
pub proof fn lemma_decimal(n: nat)
    ensures
        decimal(n).len() > 0,
        all_digits(decimal(n)),
        value_of(decimal(n)) == n,
    decreases n,
{
    let last = digit((n % 10) as int);
    assert(last as nat == 48 + n % 10);
    if n < 10 {
        assert(decimal(n).drop_last() =~= seq![]);
        assert(value_of(seq![]) == 0);
    } else {
        lemma_decimal(n / 10);
        assert(decimal(n).drop_last() =~= decimal(n / 10));
    }
}

/// Writes a number out in decimal.
pub fn write_decimal(n: usize) -> (r: String)
    ensures
        r@ == decimal(n as nat),
    decreases n,
{
    let last = (48 + (n % 10) as u8) as char;
    assert(last == digit((n % 10) as int));
    let mut r = if n < 10 {
        String::new()
    } else {
        write_decimal(n / 10)
    };
    r.push(last);
    assert(r@ =~= decimal(n as nat));
    r
}

/// Reads a number, if it fits.
pub fn parse_usize(s: &Vec<char>) -> (r: Option<usize>)
    ensures
        r == (match number(s@) {
            Some(n) if n <= usize::MAX => Some(n as usize),
            _ => None,
        }),
{
    let start: usize = if s.len() > 0 && s[0] == '+' {
        1
    } else {
        0
    };
    let ghost digits = unsigned(s@);
    assert(digits =~= s@.skip(start as int));
    if start == s.len() {
        return None;
    }
    let mut value: usize = 0;
    let mut fits = true;
    let mut i: usize = start;
    assert(digits.take(0) =~= seq![]);
    while i < s.len()
        invariant
            start <= i <= s@.len(),
            digits == s@.skip(start as int),
            digits == unsigned(s@),
            all_digits(digits.take(i - start)),
            fits ==> value == value_of(digits.take(i - start)),
            !fits ==> value_of(digits.take(i - start)) > usize::MAX,
        decreases s@.len() - i,
    {
        let c = s[i];
        assert(digits[i - start] == c);
        if !(c >= '0' && c <= '9') {
            assert(!is_digit(digits[i - start]));
            return None;
        }
        let d = (c as u32 - 48) as usize;
        assert(digits.take(i + 1 - start).drop_last() =~= digits.take(i - start));
        if fits && value <= (usize::MAX - d) / 10 {
            value = value * 10 + d;
        } else {
            fits = false;
        }
        assert(all_digits(digits.take(i + 1 - start)));
        i += 1;
    }
    assert(digits.take(i - start) =~= digits);
    if fits {
        Some(value)
    } else {
        None
    }
}

} // verus!
