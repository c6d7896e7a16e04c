//! Decimal digits: the mathematical model shared by every part of the library.
use vstd::prelude::*;

verus! {

/// Ten to the power `n`.
pub open spec fn pow10(n: nat) -> nat
    decreases n,
{
    if n == 0 {
        1
    } else {
        10 * pow10((n - 1) as nat)
    }
}

/// Number of decimal digits of `n`; zero has none.
pub open spec fn digit_count(n: nat) -> nat
    decreases n,
{
    if n == 0 {
        0
    } else {
        1 + digit_count(n / 10)
    }
}

/// The character of the decimal digit `d`.
pub open spec fn digit_char(d: nat) -> char {
    (48 + d) as char
}

/// Whether `c` is one of the ASCII characters `'0'` to `'9'`.
pub open spec fn is_digit(c: char) -> bool {
    '0' <= c && c <= '9'
}

/// The value of the digit character `c`.
pub open spec fn digit_value(c: char) -> nat {
    (c as int - 48) as nat
}

/// Whether every character of `s` is a decimal digit.
pub open spec fn all_digits(s: Seq<char>) -> bool {
    forall|i: int| 0 <= i < s.len() ==> is_digit(#[trigger] s[i])
}

/// The decimal digits of `n`, most significant first; zero has none.
pub open spec fn decimal(n: nat) -> Seq<char>
    decreases n,
{
    if n == 0 {
        Seq::empty()
    } else {
        decimal(n / 10).push(digit_char(n % 10))
    }
}

/// A run of `k` zero characters.
pub open spec fn zeros(k: nat) -> Seq<char> {
    Seq::new(k, |_i: int| '0')
}

/// The value of a string of decimal digits, most significant first.
pub open spec fn digits_value(s: Seq<char>) -> nat
    decreases s.len(),
{
    if s.len() == 0 {
        0
    } else {
        digits_value(s.drop_last()) * 10 + digit_value(s.last())
    }
}

/// How many `'0'` characters `s` starts with.
pub open spec fn leading_zero_count(s: Seq<char>) -> nat
    decreases s.len(),
{
    if s.len() == 0 || s[0] != '0' {
        0
    } else {
        1 + leading_zero_count(s.drop_first())
    }
}

pub proof fn lemma_pow10_positive(n: nat)
    ensures
        pow10(n) >= 1,
    decreases n,
{
    if n > 0 {
        lemma_pow10_positive((n - 1) as nat);
    }
}

/// `n` has at most `k` digits exactly when it is below `10^k`.
pub proof fn lemma_digit_count_le(n: nat, k: nat)
    ensures
        digit_count(n) <= k <==> n < pow10(k),
    decreases k,
{
    lemma_pow10_positive(k);
    if k > 0 && n > 0 {
        let p = pow10((k - 1) as nat);
        lemma_digit_count_le(n / 10, (k - 1) as nat);
        assert(n / 10 < p <==> n < 10 * p) by (nonlinear_arith);
    }
}

/// `10^k - 1` has exactly `k` digits.
pub proof fn lemma_digit_count_of_max(k: nat)
    ensures
        digit_count((pow10(k) - 1) as nat) == k,
{
    lemma_pow10_positive(k);
    lemma_digit_count_le((pow10(k) - 1) as nat, k);
    if k > 0 {
        lemma_pow10_positive((k - 1) as nat);
        lemma_digit_count_le((pow10(k) - 1) as nat, (k - 1) as nat);
    }
}

pub proof fn lemma_pow10_monotonic(a: nat, b: nat)
    requires
        a <= b,
    ensures
        pow10(a) <= pow10(b),
    decreases b,
{
    if a < b {
        lemma_pow10_monotonic(a, (b - 1) as nat);
    }
}

/// The decimal text of `n` is made of `digit_count(n)` digits, starts with a
/// non-zero digit, and reads back as `n`.
pub proof fn lemma_decimal(n: nat)
    ensures
        decimal(n).len() == digit_count(n),
        all_digits(decimal(n)),
        digits_value(decimal(n)) == n,
        n > 0 ==> decimal(n)[0] != '0',
    decreases n,
{
    if n > 0 {
        lemma_decimal(n / 10);
        let d = decimal(n);
        assert(d.drop_last() == decimal(n / 10));
        assert(digit_value(digit_char(n % 10)) == n % 10);
        assert(n / 10 == 0 ==> n % 10 != 0);
    }
}

/// Splitting a digit string at `i` splits its value into a high and a low part.
pub proof fn lemma_value_split(d: Seq<char>, i: int)
    requires
        all_digits(d),
        0 <= i <= d.len(),
    ensures
        digits_value(d) == digits_value(d.take(i)) * pow10((d.len() - i) as nat) + digits_value(
            d.skip(i),
        ),
        digits_value(d.skip(i)) < pow10((d.len() - i) as nat),
    decreases d.len(),
{
    if i == d.len() {
        assert(d.take(i) == d);
        assert(d.skip(i).len() == 0);
        assert(digits_value(d.skip(i)) == 0);
        assert(pow10((d.len() - i) as nat) == 1);
    } else {
        let e = d.drop_last();
        let k = (d.len() - 1 - i) as nat;
        assert(all_digits(e));
        lemma_value_split(e, i);
        assert(d.take(i) == e.take(i));
        assert(d.skip(i).drop_last() == e.skip(i));
        assert(d.skip(i).last() == d.last());
        let hi = digits_value(d.take(i));
        let lo = digits_value(e.skip(i));
        let c = digit_value(d.last());
        let p = pow10(k);
        assert(c < 10);
        assert(pow10(k + 1) == 10 * p);
        assert(digits_value(d) == digits_value(e) * 10 + c);
        assert(digits_value(d.skip(i)) == lo * 10 + c);
        assert((hi * p + lo) * 10 + c == hi * (10 * p) + (lo * 10 + c)) by (nonlinear_arith);
        assert(lo < p ==> lo * 10 + c < 10 * p) by (nonlinear_arith)
            requires
                c < 10,
        ;
        assert(k + 1 == d.len() - i);
        assert(digits_value(d) == hi * pow10(k + 1) + digits_value(d.skip(i)));
    }
}

/// A run of zeros in front of a digit string adds nothing to its value.
pub proof fn lemma_zeros_value(k: nat, r: Seq<char>)
    ensures
        digits_value(zeros(k) + r) == digits_value(r),
    decreases r.len(), k,
{
    if r.len() == 0 {
        assert(zeros(k) + r == zeros(k));
        if k > 0 {
            assert(zeros(k).drop_last() == zeros((k - 1) as nat));
            lemma_zeros_value((k - 1) as nat, r);
            assert(zeros((k - 1) as nat) + r == zeros((k - 1) as nat));
        }
    } else {
        assert((zeros(k) + r).drop_last() == zeros(k) + r.drop_last());
        lemma_zeros_value(k, r.drop_last());
    }
}

/// A digit string without a leading zero is the decimal text of its value.
pub proof fn lemma_decimal_of_value(r: Seq<char>)
    requires
        all_digits(r),
        r.len() == 0 || r[0] != '0',
    ensures
        decimal(digits_value(r)) == r,
    decreases r.len(),
{
    if r.len() > 0 {
        let e = r.drop_last();
        let c = r.last();
        assert(all_digits(e));
        lemma_decimal_of_value(e);
        let v = digits_value(r);
        let a = digits_value(e);
        let b = digit_value(c);
        assert(b < 10);
        assert((a * 10 + b) / 10 == a && (a * 10 + b) % 10 == b) by (nonlinear_arith)
            requires
                b < 10,
        ;
        if e.len() == 0 {
            assert(c == r[0]);
            assert(b > 0);
        } else {
            assert(a != 0);
        }
        assert(digit_char(b) == c);
        assert(decimal(v) == decimal(a).push(digit_char(b)));
        assert(r == e.push(c));
    }
}

/// Every digit string is a run of leading zeros followed by the decimal text
/// of its value.
pub proof fn lemma_canonical_split(d: Seq<char>)
    requires
        all_digits(d),
    ensures
        zeros(leading_zero_count(d)) + decimal(digits_value(d)) == d,
        leading_zero_count(d) + digit_count(digits_value(d)) == d.len(),
    decreases d.len(),
{
    if d.len() == 0 || d[0] != '0' {
        lemma_decimal_of_value(d);
        lemma_decimal(digits_value(d));
        assert(zeros(0) + d == d);
    } else {
        let t = d.drop_first();
        assert(all_digits(t));
        lemma_canonical_split(t);
        let k = leading_zero_count(t);
        lemma_zeros_value(k, decimal(digits_value(t)));
        assert(zeros(k + 1) + decimal(digits_value(t)) == seq!['0'] + (zeros(k) + decimal(
            digits_value(t),
        )));
        assert(d == seq!['0'] + t);
        assert(zeros(1) + t == d);
        lemma_zeros_value(1, t);
        lemma_decimal(digits_value(t));
    }
}

/// Counts the decimal digits of `n`.
pub fn digit_length(n: u64) -> (r: u8)
    ensures
        r == digit_count(n as nat),
{
    proof {
        reveal_with_fuel(pow10, 21);
        lemma_digit_count_le(n as nat, 20);
    }
    let mut count: u8 = 0;
    let mut rest: u64 = n;
    while rest > 0
        invariant
            count + digit_count(rest as nat) == digit_count(n as nat),
            digit_count(n as nat) <= 20,
        decreases rest,
    {
        count = count + 1;
        rest = rest / 10;
    }
    count
}

/// The largest number of `length` digits, `10^length - 1`.
pub fn max_number_for_length(length: u8) -> (r: u64)
    requires
        length <= 19,
    ensures
        r == pow10(length as nat) - 1,
{
    proof {
        reveal_with_fuel(pow10, 20);
        assert(pow10(19) == 10000000000000000000);
        lemma_pow10_monotonic(length as nat, 19);
    }
    let mut power: u64 = 1;
    let mut i: u8 = 0;
    while i < length
        invariant
            i <= length <= 19,
            power == pow10(i as nat),
            pow10(length as nat) <= pow10(19),
            pow10(19) == 10000000000000000000,
        decreases length - i,
    {
        proof {
            lemma_pow10_monotonic((i + 1) as nat, length as nat);
        }
        power = power * 10;
        i = i + 1;
    }
    power - 1
}

} // verus!
