//! Numbers in decimal, as they stand in header fields and zone names.

use vstd::prelude::*;

verus! {

/// The decimal digit `n`.
pub open spec fn digit(n: int) -> char {
    (n + 48) as char
}

/// Whether `c` is a decimal digit.
pub open spec fn is_digit(c: char) -> bool {
    '0' <= c && c <= '9'
}

/// What the decimal digit `c` stands for.
pub open spec fn digit_value(c: char) -> nat {
    (c as int - 48) as nat
}

/// `n` in decimal, without leading zeros.
pub open spec fn decimal(n: nat) -> Seq<char>
    decreases n,
{
    if n < 10 {
        seq![digit(n as int)]
    } else {
        decimal(n / 10).push(digit((n % 10) as int))
    }
}

/// The number that a run of digits stands for.
pub open spec fn digits_value(s: Seq<char>) -> nat
    decreases s.len(),
{
    if s.len() == 0 {
        0
    } else {
        digits_value(s.drop_last()) * 10 + digit_value(s.last())
    }
}

/// Whether `s` holds digits only, and at least one.
pub open spec fn all_digits(s: Seq<char>) -> bool {
    s.len() > 0 && forall|i: int| 0 <= i < s.len() ==> is_digit(#[trigger] s[i])
}

/// The digits of `s`: all of it, or what follows one leading plus sign.
pub open spec fn unsigned(s: Seq<char>) -> Seq<char> {
    if s.len() > 0 && s[0] == '+' {
        s.skip(1)
    } else {
        s
    }
}

/// The number that `s` is, where it is one and is at most `max`.
pub open spec fn parsed(s: Seq<char>, max: nat) -> Option<nat> {
    if all_digits(unsigned(s)) && digits_value(unsigned(s)) <= max {
        Some(digits_value(unsigned(s)))
    } else {
        None
    }
}

/// A number written in decimal holds digits only and stands for that number.
pub proof fn decimal_reads_back(n: nat)
    ensures
        all_digits(decimal(n)),
        digits_value(decimal(n)) == n,
        parsed(decimal(n), n) == Some(n),
    decreases n,
{
    let s = decimal(n);
    if n < 10 {
        assert(s.drop_last() =~= Seq::<char>::empty());
        assert(digits_value(s.drop_last()) == 0);
    } else {
        decimal_reads_back(n / 10);
        assert(s.drop_last() =~= decimal(n / 10));
    }
    assert(unsigned(s) == s) by {
        assert(is_digit(s[0]));
    }
}

proof fn longer_runs_are_larger(s: Seq<char>, i: int)
    requires
        0 <= i <= s.len(),
    ensures
        digits_value(s.take(i)) <= digits_value(s),
    decreases s.len() - i,
{
    if i < s.len() {
        longer_runs_are_larger(s, i + 1);
        assert(s.take(i + 1).drop_last() =~= s.take(i));
    } else {
        assert(s.take(i) =~= s);
    }
}

/// Writes `n` in decimal behind what is there.
pub fn push_decimal(s: &mut String, n: u64)
    ensures
        final(s)@ == old(s)@ + decimal(n as nat),
    decreases n,
{
    let ghost before = s@;
    if n >= 10 {
        push_decimal(s, n / 10);
    }
    let c: u8 = (n % 10) as u8 + 48;
    s.push(c as char);
    assert(s@ =~= before + decimal(n as nat));
}

/// Reads a number of at most `max`: digits, with at most one plus sign before them.
pub fn parse_number(chars: &[char], max: u64) -> (r: Option<u64>)
    ensures
        match r {
            Some(n) => parsed(chars@, max as nat) == Some(n as nat),
            None => parsed(chars@, max as nat) is None,
        },
{
    let len: usize = chars.len();
    let from: usize = if len > 0 && chars[0] == '+' {
        1
    } else {
        0
    };
    let ghost s = unsigned(chars@);
    assert(s =~= chars@.skip(from as int));
    if from == len {
        return None;
    }
    let mut n: u64 = 0;
    let mut i: usize = from;
    assert(s.take(0) =~= Seq::<char>::empty());
    while i < len
        invariant
            from <= i <= len,
            len == chars@.len(),
            s == unsigned(chars@),
            s == chars@.skip(from as int),
            n == digits_value(s.take(i - from)),
            n <= max,
            forall|j: int| 0 <= j < i - from ==> is_digit(#[trigger] s[j]),
        decreases len - i,
    {
        let c = chars[i];
        assert(s[i - from] == c);
        if c < '0' || c > '9' {
            return None;
        }
        assert(s.take(i - from + 1).drop_last() =~= s.take(i - from));
        let d: u64 = (c as u8 - 48) as u64;
        let wide: u128 = n as u128 * 10 + d as u128;
        assert(wide == digits_value(s.take(i - from + 1)));
        if wide > max as u128 {
            proof {
                longer_runs_are_larger(s, i - from + 1);
            }
            return None;
        }
        n = wide as u64;
        i = i + 1;
    }
    assert(s.take(s.len() as int) =~= s);
    Some(n)
}

} // verus!
