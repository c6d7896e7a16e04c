//! The padded number type, its model, and its queries.
use vstd::prelude::*;
use vstd::string::*;

use crate::digits::{
    all_digits, decimal, digit_char, digit_count, digit_length, digits_value, leading_zero_count,
    lemma_decimal, lemma_digit_count_le, lemma_zeros_value, zeros,
};
use crate::error::ParsePaddedNumberError;
use crate::parse::{lemma_parse_valid, parse, parse_spec};

verus! {

/// The mathematical value of a padded number: a run of leading zeros and the
/// magnitude that follows them.
pub struct PaddedView {
    pub leading_zeros: nat,
    pub number: nat,
}

impl PaddedView {
    /// Textual length: the leading zeros plus the digits of the magnitude.
    pub open spec fn len(self) -> nat {
        self.leading_zeros + digit_count(self.number)
    }

    /// The canonical text: the leading zeros, then the decimal digits of the
    /// magnitude (none when it is zero).
    pub open spec fn text(self) -> Seq<char> {
        zeros(self.leading_zeros) + decimal(self.number)
    }

    /// Whether the value fits the storage and the length bounds `[min, max]`.
    pub open spec fn valid(self, min: nat, max: nat) -> bool {
        &&& min <= self.len() <= max
        &&& self.leading_zeros <= u8::MAX
        &&& self.number <= u64::MAX
    }
}

/// Two values with the same text are the same value: the text fixes both the
/// leading zeros and the magnitude.
pub proof fn lemma_text_injective(v: PaddedView, w: PaddedView)
    requires
        v.text() == w.text(),
    ensures
        v == w,
{
    lemma_text_fields(v);
    lemma_text_fields(w);
}

/// The leading zeros of a value are the zeros its text starts with, and its
/// magnitude is the value of its text.
pub proof fn lemma_text_fields(v: PaddedView)
    ensures
        all_digits(v.text()),
        leading_zero_count(v.text()) == v.leading_zeros,
        digits_value(v.text()) == v.number,
    decreases v.leading_zeros,
{
    lemma_decimal(v.number);
    lemma_zeros_value(v.leading_zeros, decimal(v.number));
    if v.leading_zeros > 0 {
        let shorter = PaddedView { leading_zeros: (v.leading_zeros - 1) as nat, number: v.number };
        lemma_text_fields(shorter);
        assert(v.text().drop_first() == shorter.text());
    } else {
        assert(v.text() == decimal(v.number));
    }
}

/// An unsigned decimal number whose leading zeros are significant.
///
/// `A` is the minimum textual length and `B` the maximum, both inclusive.
/// `A == B` fixes the length, `A == 0` admits the empty value `""`, and with
/// `A > B` no value can be constructed.
#[derive(Eq, Clone, Copy, Hash, Debug)]
pub struct PaddedNumber<const A: u8, const B: u8> {
    leading_zeros: u8,
    number: u64,
}

impl<const A: u8, const B: u8> View for PaddedNumber<A, B> {
    type V = PaddedView;

    closed spec fn view(&self) -> PaddedView {
        PaddedView { leading_zeros: self.leading_zeros as nat, number: self.number as nat }
    }
}

/// Appends the decimal digit `d` to `out`.
fn push_digit(out: &mut String, d: u64)
    requires
        d < 10,
    ensures
        final(out)@ == old(out)@.push(digit_char(d as nat)),
{
    proof {
        reveal_strlit("0");
        reveal_strlit("1");
        reveal_strlit("2");
        reveal_strlit("3");
        reveal_strlit("4");
        reveal_strlit("5");
        reveal_strlit("6");
        reveal_strlit("7");
        reveal_strlit("8");
        reveal_strlit("9");
    }
    let s = if d == 0 {
        "0"
    } else if d == 1 {
        "1"
    } else if d == 2 {
        "2"
    } else if d == 3 {
        "3"
    } else if d == 4 {
        "4"
    } else if d == 5 {
        "5"
    } else if d == 6 {
        "6"
    } else if d == 7 {
        "7"
    } else if d == 8 {
        "8"
    } else {
        "9"
    };
    out.append(s);
}

/// Appends the decimal digits of `n` to `out`, most significant first.
fn push_decimal(out: &mut String, n: u64)
    ensures
        final(out)@ == old(out)@ + decimal(n as nat),
    decreases n,
{
    if n > 0 {
        push_decimal(out, n / 10);
        push_digit(out, n % 10);
    }
}

impl<const A: u8, const B: u8> PaddedNumber<A, B> {
    /// Whether the value satisfies the invariants of its bounds.
    pub open spec fn wf(self) -> bool {
        self@.valid(A as nat, B as nat)
    }

    /// Every value's leading zeros and magnitude digits add up to its length,
    /// which is the length of its text and lies within the bounds `[A, B]`.
    pub proof fn lemma_length_invariant(v: Self)
        requires
            v.wf(),
        ensures
            v@.leading_zeros + digit_count(v@.number) == v@.len(),
            v@.text().len() == v@.len(),
            A <= v@.len() <= B,
    {
        lemma_decimal(v@.number);
    }

    /// Values with the same view are the same value.
    pub proof fn lemma_view_injective(a: Self, b: Self)
        requires
            a@ == b@,
        ensures
            a == b,
    {
    }

    /// Builds a value from its two fields, which the caller vouches for: a
    /// verified caller proves them valid; any other caller must have checked
    /// them, as `parse` does for a literal.
    pub fn new_unchecked(leading_zeros: u8, number: u64) -> (r: Self)
        requires
            (PaddedView { leading_zeros: leading_zeros as nat, number: number as nat }).valid(
                A as nat,
                B as nat,
            ),
        ensures
            r@ == (PaddedView { leading_zeros: leading_zeros as nat, number: number as nat }),
            r.wf(),
    {
        PaddedNumber { leading_zeros, number }
    }

    /// Creates a padded number from its text, checked against the bounds
    /// `[A, B]`.
    pub fn try_new(s: &str) -> (r: Result<Self, ParsePaddedNumberError>)
        ensures
            match r {
                Ok(v) => parse_spec(A, B, s) == Ok::<PaddedView, ParsePaddedNumberError>(v@)
                    && v.wf() && v@.text() == s@,
                Err(e) => parse_spec(A, B, s) == Err::<PaddedView, ParsePaddedNumberError>(e),
            },
    {
        match parse(A, B, s) {
            Ok((leading_zeros, number)) => {
                proof {
                    lemma_parse_valid(A, B, s);
                }
                Ok(Self::new_unchecked(leading_zeros, number))
            },
            Err(e) => Err(e),
        }
    }

    /// The count of leading zeros in front of the magnitude.
    pub fn leading_zeros(&self) -> (r: u8)
        ensures
            r == self@.leading_zeros,
    {
        self.leading_zeros
    }

    /// The magnitude that follows the leading zeros.
    pub fn number(&self) -> (r: u64)
        ensures
            r == self@.number,
    {
        self.number
    }

    /// The length of the padded number, leading zeros included.
    pub fn len(&self) -> (r: u8)
        requires
            self.wf(),
        ensures
            r == self@.len(),
    {
        self.leading_zeros + digit_length(self.number)
    }

    /// Whether this is the empty value `""`.
    pub fn is_empty(&self) -> (r: bool)
        ensures
            r == (self@.len() == 0),
    {
        proof {
            lemma_digit_count_le(self.number as nat, 0);
        }
        self.leading_zeros == 0 && self.number == 0
    }

    /// The canonical text: the leading zeros, then the digits of the magnitude.
    pub fn to_string(&self) -> (r: String)
        ensures
            r@ == self@.text(),
    {
        let mut out = String::new();
        let mut i: u8 = 0;
        while i < self.leading_zeros
            invariant
                i <= self.leading_zeros,
                out@ == zeros(i as nat),
            decreases self.leading_zeros - i,
        {
            push_digit(&mut out, 0);
            assert(out@ == zeros((i + 1) as nat));
            i = i + 1;
        }
        push_decimal(&mut out, self.number);
        out
    }
}

/// Two padded numbers are equal when both their leading zeros and their
/// magnitudes are.
impl<const A: u8, const B: u8> PartialEq for PaddedNumber<A, B> {
    fn eq(&self, other: &Self) -> (r: bool) {
        self.leading_zeros == other.leading_zeros && self.number == other.number
    }
}

impl<const A: u8, const B: u8> vstd::std_specs::cmp::PartialEqSpecImpl for PaddedNumber<A, B> {
    open spec fn obeys_eq_spec() -> bool {
        true
    }

    open spec fn eq_spec(&self, other: &Self) -> bool {
        self@ == other@
    }
}

} // verus!
