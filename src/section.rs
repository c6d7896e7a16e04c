//! Sections: contiguous digit ranges of a padded number, each a padded number
//! of its own.
use vstd::arithmetic::div_mod::{
    lemma_div_denominator, lemma_fundamental_div_mod_converse_div,
    lemma_fundamental_div_mod_converse_mod, lemma_mod_mod, lemma_small_mod,
};
use vstd::prelude::*;

use crate::digits::{
    all_digits, decimal, digit_count, digit_length, digits_value, leading_zero_count,
    lemma_canonical_split, lemma_decimal, lemma_digit_count_le, lemma_pow10_positive,
    lemma_value_split, max_number_for_length, pow10, zeros,
};
use crate::padded::{PaddedNumber, PaddedView};

verus! {

/// Drops the most significant of the `number_length` digits of `number`.
fn left_shift(number: u64, number_length: u8) -> (r: u64)
    requires
        1 <= number_length <= 20,
    ensures
        r == (number as nat) % pow10((number_length - 1) as nat),
{
    let decimal = max_number_for_length(number_length - 1) + 1;
    number % decimal
}

/// Drops the `repetitions` most significant of the `number_length` digits of
/// `number`.
fn left_shift_repeated(number: u64, number_length: u8, repetitions: u8) -> (r: u64)
    requires
        repetitions <= number_length <= 20,
        number < pow10(number_length as nat),
    ensures
        r == (number as nat) % pow10((number_length - repetitions) as nat),
{
    proof {
        lemma_small_mod(number as nat, pow10(number_length as nat));
    }
    let mut current = number;
    let mut current_length = number_length;
    let mut repetitions_left = repetitions;
    while repetitions_left > 0
        invariant
            repetitions_left <= current_length <= 20,
            current_length - repetitions_left == number_length - repetitions,
            current == (number as nat) % pow10(current_length as nat),
        decreases repetitions_left,
    {
        proof {
            let p = pow10((current_length - 1) as nat);
            lemma_pow10_positive((current_length - 1) as nat);
            assert(pow10(current_length as nat) == p * 10);
            lemma_mod_mod(number as int, p as int, 10);
        }
        current = left_shift(current, current_length);
        current_length = current_length - 1;
        repetitions_left = repetitions_left - 1;
    }
    current
}

/// Drops the `repetitions` least significant digits of `number`.
fn right_shift_repeated(number: u64, repetitions: u8) -> (r: u64)
    ensures
        r == (number as nat) / pow10(repetitions as nat),
{
    let mut current = number;
    let mut done: u8 = 0;
    assert(pow10(0) == 1);
    while done < repetitions
        invariant
            done <= repetitions,
            current == (number as nat) / pow10(done as nat),
        decreases repetitions - done,
    {
        proof {
            lemma_pow10_positive(done as nat);
            lemma_div_denominator(number as int, pow10(done as nat) as int, 10);
            assert(pow10((done + 1) as nat) == pow10(done as nat) * 10);
        }
        current = current / 10;
        done = done + 1;
    }
    current
}

/// The magnitude of the digits `[start, end)` of `number`, counted from the
/// most significant digit.
pub fn number_subsection(number: u64, start: u8, end: u8) -> (r: u64)
    requires
        start <= end <= digit_count(number as nat),
    ensures
        r == digits_value(decimal(number as nat).subrange(start as int, end as int)),
{
    let number_length = digit_length(number);
    let ghost d = decimal(number as nat);
    proof {
        lemma_decimal(number as nat);
        reveal_with_fuel(pow10, 21);
        lemma_digit_count_le(number as nat, 20);
    }
    if number_length == 0 {
        return 0;
    }
    let left_shifts = start;
    let right_shifts = number_length - end;
    proof {
        lemma_digit_count_le(number as nat, number_length as nat);
        let high = (d.len() - start) as nat;
        let low = (d.len() - end) as nat;
        let tail = d.skip(start as int);
        lemma_value_split(d, start as int);
        lemma_pow10_positive(high);
        lemma_fundamental_div_mod_converse_mod(
            number as int,
            pow10(high) as int,
            digits_value(d.take(start as int)) as int,
            digits_value(tail) as int,
        );
        assert(all_digits(tail));
        lemma_value_split(tail, (end - start) as int);
        lemma_pow10_positive(low);
        lemma_fundamental_div_mod_converse_div(
            digits_value(tail) as int,
            pow10(low) as int,
            digits_value(tail.take((end - start) as int)) as int,
            digits_value(tail.skip((end - start) as int)) as int,
        );
        assert(tail.take((end - start) as int) == d.subrange(start as int, end as int));
    }
    let shifted = left_shift_repeated(number, number_length, left_shifts);
    right_shift_repeated(shifted, right_shifts)
}

/// The text of the value `(leading_zeros, number)` from `start` to `end`.
pub open spec fn section_text(leading_zeros: nat, number: nat, start: int, end: int) -> Seq<
    char,
> {
    (PaddedView { leading_zeros, number }).text().subrange(start, end)
}

/// Splits the digits `[start, end)` of the value `(leading_zeros,
/// remaining_number)` into the leading zeros and the magnitude of a new value.
fn section_impl(leading_zeros: u8, remaining_number: u64, start: u8, end: u8) -> (r: (u8, u64))
    requires
        start <= end <= leading_zeros + digit_count(remaining_number as nat),
    ensures
        (PaddedView { leading_zeros: r.0 as nat, number: r.1 as nat }).text() == section_text(
            leading_zeros as nat,
            remaining_number as nat,
            start as int,
            end as int,
        ),
        r.0 + digit_count(r.1 as nat) == end - start,
{
    let ghost text = (PaddedView {
        leading_zeros: leading_zeros as nat,
        number: remaining_number as nat,
    }).text();
    let ghost d = decimal(remaining_number as nat);
    proof {
        lemma_decimal(remaining_number as nat);
    }
    if end <= leading_zeros {
        // the range lies within the leading zeros
        assert(text.subrange(start as int, end as int) == zeros((end - start) as nat) + decimal(0));
        return ((end - start), 0);
    }
    // the range ends within the magnitude: its zeros before the magnitude, if
    // any, are kept, and the digits it takes from the magnitude are read anew
    let from = if start <= leading_zeros {
        0
    } else {
        start - leading_zeros
    };
    let to = end - leading_zeros;
    let number = number_subsection(remaining_number, from, to);
    let zero_run = if start <= leading_zeros {
        leading_zeros - start
    } else {
        0
    };
    proof {
        let piece = d.subrange(from as int, to as int);
        assert(all_digits(piece));
        lemma_canonical_split(piece);
        let k = leading_zero_count(piece);
        assert(zeros(zero_run as nat) + piece == zeros((zero_run + k) as nat) + decimal(
            number as nat,
        ));
        assert(text.subrange(start as int, end as int) == zeros(zero_run as nat) + piece);
        lemma_digit_count_le(remaining_number as nat, 20);
    }
    ((end - start) - digit_length(number), number)
}

impl<const A: u8, const B: u8> PaddedNumber<A, B> {
    /// The section `[start, end)` of the text, or `None` when the value is
    /// shorter than `end`.
    pub fn checked_section<const L: u8>(&self, start: u8, end: u8) -> (r: Option<
        PaddedNumber<L, L>,
    >)
        requires
            self.wf(),
            start <= end <= B,
            L == end - start,
        ensures
            (r is Some) <==> end <= self@.len(),
            r matches Some(s) ==> s.wf() && s@.text() == self@.text().subrange(
                start as int,
                end as int,
            ),
    {
        if end > self.len() {
            return None;
        }
        let (leading_zeros, number) = section_impl(self.leading_zeros(), self.number(), start, end);
        Some(PaddedNumber::new_unchecked(leading_zeros, number))
    }

    /// The section `[start, end)` of the text, clamped to the length of the
    /// value, or `None` when fewer than `NEW_MIN` digits remain.
    pub fn relaxed_section<const NEW_MIN: u8, const L: u8>(&self, start: u8, end: u8) -> (r:
        Option<PaddedNumber<NEW_MIN, L>>)
        requires
            self.wf(),
            start <= end <= B,
            L == end - start,
            NEW_MIN <= L,
        ensures
            ({
                let lo = if start <= self@.len() { start as int } else { self@.len() as int };
                let hi = if end <= self@.len() { end as int } else { self@.len() as int };
                &&& (r is Some) <==> NEW_MIN <= hi - lo
                &&& r matches Some(s) ==> s.wf() && s@.text() == self@.text().subrange(lo, hi)
            }),
    {
        let length = self.len();
        let available = if end <= length {
            end
        } else {
            length
        };
        let remaining_length = available.saturating_sub(start);
        if remaining_length < NEW_MIN {
            return None;
        }
        if remaining_length == 0 {
            proof {
                lemma_digit_count_le(0, 0);
                lemma_decimal(self@.number);
                let empty = PaddedView { leading_zeros: 0, number: 0 };
                assert(empty.text() == Seq::<char>::empty());
                assert(self@.text().subrange(available as int, available as int) == empty.text());
            }
            return Some(PaddedNumber::new_unchecked(0, 0));
        }
        let (leading_zeros, number) = section_impl(
            self.leading_zeros(),
            self.number(),
            start,
            start + remaining_length,
        );
        Some(PaddedNumber::new_unchecked(leading_zeros, number))
    }

    /// The section `[start, end)` of the text, which every value of length
    /// at least `A` has.
    pub fn expected_section<const L: u8>(&self, start: u8, end: u8) -> (r: PaddedNumber<L, L>)
        requires
            self.wf(),
            start <= end <= A,
            L == end - start,
        ensures
            r.wf(),
            r@.text() == self@.text().subrange(start as int, end as int),
    {
        let (leading_zeros, number) = section_impl(self.leading_zeros(), self.number(), start, end);
        PaddedNumber::new_unchecked(leading_zeros, number)
    }
}

} // verus!
