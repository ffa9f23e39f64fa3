//! Decimal numerals: what a run of digits is worth.

use vstd::prelude::*;

verus! {

/// The ASCII decimal digits.
pub open spec fn is_digit(c: char) -> bool {
    '0' <= c <= '9'
}

/// Every character of `s` is a decimal digit.
pub open spec fn all_digits(s: Seq<char>) -> bool {
    forall|i: int| 0 <= i < s.len() ==> is_digit(#[trigger] s[i])
}

/// The worth of one decimal digit.
pub open spec fn digit_value(c: char) -> nat {
    (c as int - '0' as int) as nat
}

/// The number that the digits of `s` write in base ten; `0` for no digits.
pub open spec fn decimal(s: Seq<char>) -> nat
    decreases s.len(),
{
    if s.len() == 0 {
        0
    } else {
        decimal(s.drop_last()) * 10 + digit_value(s.last())
    }
}

/// Ten to the power `n`.
pub open spec fn pow10(n: nat) -> nat
    decreases n,
{
    if n == 0 {
        1
    } else {
        10 * pow10((n - 1) as nat)
    }
}

/// A numeral that goes on is worth at least as much as its beginning.
pub proof fn lemma_decimal_grows(s: Seq<char>, n: int)
    requires
        0 <= n <= s.len(),
    ensures
        decimal(s.take(n)) <= decimal(s),
    decreases s.len() - n,
{
    if n < s.len() {
        assert(s.take(n + 1).drop_last() =~= s.take(n));
        lemma_decimal_grows(s, n + 1);
    } else {
        assert(s.take(n) =~= s);
    }
}

/// Whether `c` is a decimal digit.
pub fn digit(c: char) -> (r: bool)
    ensures
        r == is_digit(c),
{
    '0' <= c && c <= '9'
}

/// Reads `t` from index `from` on as a numeral of one to five digits.
pub fn short_number(t: &Vec<char>, from: usize) -> (r: Option<i32>)
    ensures
        r is Some <==> 1 <= t.len() - from <= 5 && all_digits(t@.skip(from as int)),
        r matches Some(n) ==> n == decimal(t@.skip(from as int)),
{
    let ghost s = t@.skip(from as int);
    if from >= t.len() || t.len() - from > 5 {
        return None;
    }
    let mut n: i32 = 0;
    let mut i: usize = from;
    while i < t.len()
        invariant
            from <= i <= t.len(),
            t.len() - from <= 5,
            s == t@.skip(from as int),
            all_digits(s.take(i - from)),
            n == decimal(s.take(i - from)),
            n < pow10((i - from) as nat),
        decreases t.len() - i,
    {
        let c = t[i];
        if !digit(c) {
            proof {
                assert(s[i - from] == c);
            }
            return None;
        }
        proof {
            let a = s.take(i - from);
            let b = s.take(i + 1 - from);
            assert(b.drop_last() =~= a);
            assert(b.last() == c);
            assert forall|j: int| 0 <= j < b.len() implies is_digit(#[trigger] b[j]) by {
                if j < a.len() {
                    assert(a[j] == b[j]);
                }
            }
            reveal_with_fuel(pow10, 6);
            assert(pow10(5) == 100000);
        }
        n = n * 10 + (c as i32 - '0' as i32);
        i = i + 1;
    }
    proof {
        assert(s.take(i - from) =~= s);
    }
    Some(n)
}

} // verus!
