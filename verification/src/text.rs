//! Decimal ASCII text: what a number looks like on the wire, and what a run
//! of digits is worth.

use vstd::prelude::*;

verus! {

/// The ASCII minus sign.
pub const MINUS: u8 = 45;

/// The ASCII plus sign.
pub const PLUS: u8 = 43;

/// The ASCII space.
pub const SPACE: u8 = 32;

/// The ASCII digit zero.
pub const ZERO: u8 = 48;

/// Whether `b` is an ASCII decimal digit.
pub open spec fn is_digit(b: u8) -> bool {
    48 <= b <= 57
}

/// Whether every byte of `s` is an ASCII decimal digit.
pub open spec fn all_digits(s: Seq<u8>) -> bool {
    forall|i: int| 0 <= i < s.len() ==> is_digit(#[trigger] s[i])
}

/// The decimal digits of `n`, most significant first, without leading zeros.
pub open spec fn decimal(n: nat) -> Seq<u8>
    decreases n,
{
    if n < 10 {
        seq![(48 + n) as u8]
    } else {
        decimal(n / 10).push((48 + n % 10) as u8)
    }
}

/// The decimal text of `v`: a minus sign in front of a negative number, no
/// sign otherwise.
pub open spec fn signed_decimal(v: int) -> Seq<u8> {
    if v < 0 {
        seq![45u8] + decimal((-v) as nat)
    } else {
        decimal(v as nat)
    }
}

/// The number that a run of decimal digits denotes; 0 for the empty run.
pub open spec fn digits_value(s: Seq<u8>) -> nat
    decreases s.len(),
{
    if s.len() == 0 {
        0
    } else {
        (digits_value(s.drop_last()) * 10 + (s.last() - 48)) as nat
    }
}

/// The decimal text of a number is never empty and holds digits only.
pub proof fn lemma_decimal_digits(n: nat)
    ensures
        decimal(n).len() >= 1,
        all_digits(decimal(n)),
    decreases n,
{
    if n >= 10 {
        lemma_decimal_digits(n / 10);
    }
}

/// A number below a power of ten has no more digits than that power has
/// zeros, for the sizes that 32-bit numbers reach.
pub proof fn lemma_decimal_len(n: nat)
    ensures
        n < 10 ==> decimal(n).len() == 1,
        10 <= n < 100 ==> decimal(n).len() == 2,
        100 <= n < 1_000 ==> decimal(n).len() == 3,
        1_000 <= n < 10_000 ==> decimal(n).len() == 4,
        10_000 <= n < 100_000 ==> decimal(n).len() == 5,
        n < 1_000_000 ==> decimal(n).len() <= 6,
        n < 10_000_000 ==> decimal(n).len() <= 7,
        n < 100_000_000 ==> decimal(n).len() <= 8,
        n < 1_000_000_000 ==> decimal(n).len() <= 9,
        n < 10_000_000_000 ==> decimal(n).len() <= 10,
    decreases n,
{
    if n >= 10 {
        lemma_decimal_len(n / 10);
    }
}

/// Reading the decimal text of a number gives the number back.
pub proof fn lemma_decimal_value(n: nat)
    ensures
        digits_value(decimal(n)) == n,
    decreases n,
{
    if n < 10 {
        let s = decimal(n);
        assert(s.drop_last().len() == 0);
        assert(digits_value(s.drop_last()) == 0);
    } else {
        lemma_decimal_value(n / 10);
        let s = decimal(n);
        assert(s.drop_last() =~= decimal(n / 10));
    }
}

/// The decimal text of a signed number is at most eleven bytes long when the
/// number fits in 32 bits.
pub proof fn lemma_signed_decimal_len(v: int)
    requires
        -0x8000_0000 <= v <= 0x7fff_ffff,
    ensures
        1 <= signed_decimal(v).len() <= 11,
{
    if v < 0 {
        lemma_decimal_len((-v) as nat);
        lemma_decimal_digits((-v) as nat);
    } else {
        lemma_decimal_len(v as nat);
        lemma_decimal_digits(v as nat);
    }
}

/// A run of digits is worth at least as much as any part of it that starts
/// at its front.
pub proof fn lemma_digits_value_grows(s: Seq<u8>, n: nat)
    requires
        all_digits(s),
        n <= s.len(),
    ensures
        digits_value(s.take(n as int)) <= digits_value(s),
    decreases s.len(),
{
    if n < s.len() {
        let shorter = s.drop_last();
        lemma_digits_value_grows(shorter, n);
        assert(shorter.take(n as int) == s.take(n as int));
        assert(is_digit(s.last()));
    } else {
        assert(s.take(n as int) == s);
    }
}

/// The number of digits in the decimal text of `value`.
pub fn decimal_len(value: u16) -> (n: usize)
    ensures
        n == decimal(value as nat).len(),
        1 <= n <= 5,
{
    proof {
        lemma_decimal_len(value as nat);
    }
    if value < 10 {
        1
    } else if value < 100 {
        2
    } else if value < 1_000 {
        3
    } else if value < 10_000 {
        4
    } else {
        5
    }
}

/// Whether the decimal text of `value` stands in `data` at the position
/// `at`.
pub fn decimal_at(data: &[u8], at: usize, value: u8) -> (r: bool)
    requires
        at <= data@.len(),
    ensures
        r == decimal(value as nat).is_prefix_of(data@.skip(at as int)),
{
    let ghost text = decimal(value as nat);
    let ghost behind = data@.skip(at as int);
    let n = decimal_len(value as u16);
    proof {
        reveal_with_fuel(decimal, 3);
    }
    if data.len() - at < n {
        return false;
    }
    let ghost front = behind.subrange(0, n as int);
    let first: u8 = if value < 10 {
        value
    } else if value < 100 {
        value / 10
    } else {
        value / 100
    };
    let second: u8 = if value < 100 {
        value % 10
    } else {
        (value / 10) % 10
    };
    let third: u8 = value % 10;
    assert(text[0] == 48 + first);
    assert(n >= 2 ==> text[1] == 48 + second);
    assert(n >= 3 ==> text[2] == 48 + third);
    assert(front[0] == data@[at as int]);
    assert(n >= 2 ==> front[1] == data@[at + 1]);
    assert(n >= 3 ==> front[2] == data@[at + 2]);
    let r = data[at] == ZERO + first && (n < 2 || data[at + 1] == ZERO + second) && (n < 3
        || data[at + 2] == ZERO + third);
    assert(r ==> text =~= front);
    r
}

} // verus!
