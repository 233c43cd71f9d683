//! Numbers in decimal notation.

use vstd::prelude::*;

verus! {

/// The digit for a number below ten.
pub open spec fn digit_char(d: int) -> char {
    if d == 0 {
        '0'
    } else if d == 1 {
        '1'
    } else if d == 2 {
        '2'
    } else if d == 3 {
        '3'
    } else if d == 4 {
        '4'
    } else if d == 5 {
        '5'
    } else if d == 6 {
        '6'
    } else if d == 7 {
        '7'
    } else if d == 8 {
        '8'
    } else {
        '9'
    }
}

/// The number that a digit stands for; nothing for any other character.
pub open spec fn digit_value(c: char) -> Option<int> {
    if c == '0' {
        Some(0)
    } else if c == '1' {
        Some(1)
    } else if c == '2' {
        Some(2)
    } else if c == '3' {
        Some(3)
    } else if c == '4' {
        Some(4)
    } else if c == '5' {
        Some(5)
    } else if c == '6' {
        Some(6)
    } else if c == '7' {
        Some(7)
    } else if c == '8' {
        Some(8)
    } else if c == '9' {
        Some(9)
    } else {
        None
    }
}

/// A number in decimal notation, without leading zeros.
pub open spec fn decimal(n: nat) -> Seq<char>
    decreases n,
{
    if n < 10 {
        seq![digit_char(n as int)]
    } else {
        decimal(n / 10).push(digit_char((n % 10) as int))
    }
}

/// The number that a text of digits stands for; nothing for a text that
/// is empty or holds anything but digits.
pub open spec fn number_of(s: Seq<char>) -> Option<nat>
    decreases s.len(),
{
    if s.len() == 0 {
        None
    } else {
        match digit_value(s.last()) {
            None => None,
            Some(d) => if s.len() == 1 {
                Some(d as nat)
            } else {
                match number_of(s.drop_last()) {
                    Some(n) => Some((n * 10 + d) as nat),
                    None => None,
                }
            },
        }
    }
}

/// A number is read back from its decimal notation.
pub proof fn lemma_number_of_decimal(n: nat)
    ensures
        number_of(decimal(n)) == Some(n),
        decimal(n).len() > 0,
    decreases n,
{
    if n >= 10 {
        lemma_number_of_decimal(n / 10);
        let s = decimal(n);
        assert(s.drop_last() =~= decimal(n / 10));
        assert(s.last() == digit_char((n % 10) as int));
    }
}

/// Computes `digit_char`.
pub fn digit_of(d: u8) -> (r: char)
    requires
        d < 10,
    ensures
        r == digit_char(d as int),
{
    if d == 0 {
        '0'
    } else if d == 1 {
        '1'
    } else if d == 2 {
        '2'
    } else if d == 3 {
        '3'
    } else if d == 4 {
        '4'
    } else if d == 5 {
        '5'
    } else if d == 6 {
        '6'
    } else if d == 7 {
        '7'
    } else if d == 8 {
        '8'
    } else {
        '9'
    }
}

/// Computes `digit_value`.
pub fn value_of_digit(c: char) -> (r: Option<u8>)
    ensures
        match r {
            Some(d) => digit_value(c) == Some(d as int) && d < 10,
            None => digit_value(c) is None,
        },
{
    if c == '0' {
        Some(0)
    } else if c == '1' {
        Some(1)
    } else if c == '2' {
        Some(2)
    } else if c == '3' {
        Some(3)
    } else if c == '4' {
        Some(4)
    } else if c == '5' {
        Some(5)
    } else if c == '6' {
        Some(6)
    } else if c == '7' {
        Some(7)
    } else if c == '8' {
        Some(8)
    } else if c == '9' {
        Some(9)
    } else {
        None
    }
}

/// Computes `decimal`.
pub fn to_decimal(n: u128) -> (r: Vec<char>)
    ensures
        r@ == decimal(n as nat),
    decreases n,
{
    if n < 10 {
        let r = vec![digit_of(n as u8)];
        proof {
            assert(r@ =~= decimal(n as nat));
        }
        r
    } else {
        let mut r = to_decimal(n / 10);
        r.push(digit_of((n % 10) as u8));
        r
    }
}

/// Computes `number_of` for the numbers that fit: nothing too for a text
/// that stands for a larger number.
pub fn from_decimal(s: &Vec<char>) -> (r: Option<u64>)
    ensures
        match r {
            Some(n) => number_of(s@) == Some(n as nat),
            None => number_of(s@) is None || number_of(s@)->0 > u64::MAX,
        },
{
    if s.len() == 0 {
        return None;
    }
    let mut n: u64 = 0;
    let mut i: usize = 0;
    while i < s.len()
        invariant
            i <= s.len(),
            s.len() > 0,
            i > 0 ==> number_of(s@.take(i as int)) == Some(n as nat),
            i == 0 ==> n == 0,
        decreases s.len() - i,
    {
        proof {
            let t = s@.take(i + 1);
            assert(t.last() == s@[i as int]);
            assert(t.drop_last() =~= s@.take(i as int));
        }
        match value_of_digit(s[i]) {
            None => {
                proof {
                    lemma_number_of_prefix(s@, i + 1);
                }
                return None;
            },
            Some(d) => {
                if n > (u64::MAX - d as u64) / 10 {
                    proof {
                        lemma_number_of_grows(s@, i + 1);
                        assert(number_of(s@.take(i + 1)) == Some((n * 10 + d) as nat));
                    }
                    return None;
                }
                n = n * 10 + d as u64;
            },
        }
        i += 1;
    }
    proof {
        assert(s@.take(s@.len() as int) =~= s@);
    }
    Some(n)
}

/// Where a text in front does not stand for a number, the whole does not.
pub proof fn lemma_number_of_prefix(s: Seq<char>, k: int)
    requires
        0 < k <= s.len(),
        number_of(s.take(k)) is None,
    ensures
        number_of(s) is None,
    decreases s.len() - k,
{
    if k < s.len() {
        let t = s.take(k + 1);
        assert(t.drop_last() =~= s.take(k));
        lemma_number_of_prefix(s, k + 1);
    } else {
        assert(s.take(k) =~= s);
    }
}

/// Where the whole stands for a number, that number is no smaller than
/// the one that a text in front stands for.
pub proof fn lemma_number_of_grows(s: Seq<char>, k: int)
    requires
        0 < k <= s.len(),
    ensures
        number_of(s) is Some ==> number_of(s.take(k)) is Some && number_of(s.take(k))->0 <= number_of(
            s,
        )->0,
    decreases s.len() - k,
{
    if k < s.len() {
        let t = s.take(k + 1);
        assert(t.drop_last() =~= s.take(k));
        lemma_number_of_grows(s, k + 1);
        if number_of(s) is Some {
            assert(number_of(t) is Some);
            assert(number_of(s.take(k)) is Some);
            assert(number_of(s.take(k))->0 <= number_of(t)->0) by (nonlinear_arith)
                requires
                    number_of(t)->0 == number_of(s.take(k))->0 * 10 + digit_value(t.last())->0,
                    digit_value(t.last())->0 >= 0,
            ;
        }
    } else {
        assert(s.take(k) =~= s);
    }
}

} // verus!
