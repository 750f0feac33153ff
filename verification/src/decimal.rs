//! Integers written in decimal.
use crate::text::extend_chars;
use vstd::prelude::*;

verus! {

/// The digit `d`, for `d` from 0 to 9.
pub open spec fn digit_of(d: int) -> char {
    ('0' as u32 + d) as char
}

/// The decimal digits of `n`, most significant first, without leading zeros.
pub open spec fn digits_of(n: nat) -> Seq<char>
    decreases n,
{
    if n < 10 {
        seq![digit_of(n as int)]
    } else {
        digits_of(n / 10).push(digit_of((n % 10) as int))
    }
}

/// `n` in decimal, with a minus sign in front where it is negative.
pub open spec fn decimal_of(n: int) -> Seq<char> {
    if n < 0 {
        seq!['-'] + digits_of((-n) as nat)
    } else {
        digits_of(n as nat)
    }
}

/// The decimal digits of `n`.
pub fn digits(n: u64) -> (r: Vec<char>)
    ensures
        r@ == digits_of(n as nat),
    decreases n,
{
    let last: u8 = (n % 10) as u8;
    let c: char = (48 + last) as char;
    let mut out: Vec<char> = if n < 10 {
        Vec::new()
    } else {
        digits(n / 10)
    };
    out.push(c);
    assert(out@ =~= digits_of(n as nat));
    out
}

/// `n` in decimal.
pub fn decimal(n: i64) -> (r: Vec<char>)
    ensures
        r@ == decimal_of(n as int),
{
    if n < 0 {
        let size: u64 = (-(n + 1)) as u64 + 1;
        let mut out: Vec<char> = Vec::new();
        out.push('-');
        extend_chars(&mut out, &digits(size));
        assert(out@ =~= decimal_of(n as int));
        out
    } else {
        digits(n as u64)
    }
}

/// The number that a text of decimal digits denotes.
pub open spec fn digits_value(t: Seq<char>) -> int
    decreases t.len(),
{
    if t.len() == 0 {
        0
    } else {
        10 * digits_value(t.drop_last()) + (t.last() as u32 - '0' as u32)
    }
}

/// Writing a number in decimal and reading it again gives the number back.
pub proof fn law_digits_denote_the_number(n: nat)
    ensures
        digits_value(digits_of(n)) == n,
        digits_of(n).len() >= 1,
        forall|i: int|
            0 <= i < digits_of(n).len() ==> '0' as u32 <= #[trigger] digits_of(n)[i] as u32
                <= '9' as u32,
    decreases n,
{
    let t = digits_of(n);
    reveal_with_fuel(digits_value, 2);
    if n < 10 {
        assert(t.drop_last() =~= Seq::empty());
    } else {
        law_digits_denote_the_number(n / 10);
        assert(t.drop_last() =~= digits_of(n / 10));
        assert forall|i: int| 0 <= i < t.len() implies '0' as u32 <= #[trigger] t[i] as u32
            <= '9' as u32 by {
            if i < t.len() - 1 {
                assert(t[i] == digits_of(n / 10)[i]);
            }
        }
    }
}

/// No number but zero is written with a leading zero, and a minus sign stands in
/// front of exactly the negative ones.
pub proof fn law_decimals_are_canonical(n: int)
    ensures
        n > 0 ==> digits_of(n as nat)[0] != '0',
        n >= 0 ==> decimal_of(n) == digits_of(n as nat),
        n < 0 ==> decimal_of(n) == "-"@ + digits_of((-n) as nat),
    decreases n,
{
    reveal_strlit("-");
    assert("-"@ =~= seq!['-']);
    if n >= 10 {
        law_decimals_are_canonical(n / 10);
        law_digits_denote_the_number((n / 10) as nat);
        assert(digits_of(n as nat)[0] == digits_of((n / 10) as nat)[0]);
    }
}

} // verus!
