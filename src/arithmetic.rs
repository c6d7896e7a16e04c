//! Wrapping and saturating addition and subtraction of a `u64`.
//!
//! The values of a bound pair `[A, B]` form one ascending sequence: all values
//! of length `A` by magnitude, then all values of length `A + 1`, and so on up
//! to length `B`. Adding moves forward in that sequence and subtracting moves
//! backward; at either end the operation saturates or wraps around.
use vstd::prelude::*;

use crate::digits::{
    digit_count, digit_length, lemma_digit_count_le, lemma_digit_count_of_max, lemma_pow10_monotonic,
    lemma_pow10_positive, max_number_for_length, pow10,
};
use crate::padded::{PaddedNumber, PaddedView};

verus! {

/// Number of values whose length lies in `[min, len)`: `10^l` of each length `l`.
pub open spec fn count_below(min: nat, len: nat) -> nat
    decreases len,
{
    if len <= min {
        0
    } else {
        count_below(min, (len - 1) as nat) + pow10((len - 1) as nat)
    }
}

impl PaddedView {
    /// Position of this value among all values of length at least `min`,
    /// ordered by length first and by magnitude second.
    pub open spec fn rank(self, min: nat) -> nat {
        count_below(min, self.len()) + self.number
    }
}

pub proof fn lemma_count_below_monotonic(min: nat, a: nat, b: nat)
    requires
        a <= b,
    ensures
        count_below(min, a) <= count_below(min, b),
    decreases b,
{
    if a < b {
        lemma_count_below_monotonic(min, a, (b - 1) as nat);
    }
}

/// Fewer than `10^len / 9` values are shorter than `len`.
pub proof fn lemma_count_below_bound(min: nat, len: nat)
    ensures
        9 * count_below(min, len) < pow10(len),
    decreases len,
{
    lemma_pow10_positive(len);
    if len > min {
        lemma_count_below_bound(min, (len - 1) as nat);
    }
    if len > 0 {
        lemma_pow10_monotonic((len - 1) as nat, len);
    }
}

/// A valid value's rank lies among the ranks of its own length, and below
/// the number of values of its bounds.
pub proof fn lemma_rank_bounds(v: PaddedView, min: nat, max: nat)
    requires
        v.valid(min, max),
    ensures
        count_below(min, v.len()) <= v.rank(min),
        v.rank(min) < count_below(min, v.len() + 1),
        count_below(min, v.len() + 1) <= count_below(min, max + 1),
{
    lemma_digit_count_le(v.number, v.len());
    lemma_count_below_monotonic(min, v.len() + 1, max + 1);
}

/// Distinct valid values have distinct ranks.
pub proof fn lemma_rank_injective(v: PaddedView, w: PaddedView, min: nat, max: nat)
    requires
        v.valid(min, max),
        w.valid(min, max),
        v.rank(min) == w.rank(min),
    ensures
        v == w,
{
    lemma_rank_bounds(v, min, max);
    lemma_rank_bounds(w, min, max);
    if v.len() < w.len() {
        lemma_count_below_monotonic(min, v.len() + 1, w.len());
    } else if w.len() < v.len() {
        lemma_count_below_monotonic(min, w.len() + 1, v.len());
    }
}

/// The value of the same length as `v` with magnitude `n`: the leading zeros
/// absorb the change in the magnitude's digit count.
pub open spec fn with_magnitude(v: PaddedView, n: nat) -> PaddedView {
    PaddedView { leading_zeros: (v.len() - digit_count(n)) as nat, number: n }
}

/// A magnitude below `10^len` fits the length of `v`, and its rank is offset
/// from that of `v` by the change in magnitude.
pub proof fn lemma_with_magnitude(v: PaddedView, n: nat, min: nat, max: nat)
    requires
        v.valid(min, max),
        max <= 19,
        n < pow10(v.len()),
    ensures
        with_magnitude(v, n).valid(min, max),
        with_magnitude(v, n).len() == v.len(),
        with_magnitude(v, n).rank(min) == v.rank(min) - v.number + n,
        with_magnitude(v, n).rank(min) < count_below(min, max + 1),
{
    lemma_digit_count_le(n, v.len());
    lemma_pow10_monotonic(v.len(), 19);
    reveal_with_fuel(pow10, 20);
    lemma_rank_bounds(with_magnitude(v, n), min, max);
}

impl<const A: u8, const B: u8> PaddedNumber<A, B> {
    /// Number of values under the bounds `[A, B]`.
    pub open spec fn value_count() -> nat {
        count_below(A as nat, B as nat + 1)
    }

    /// The value whose rank is that of `self` plus `rhs`, wrapped around the
    /// number of values.
    pub open spec fn wrapped_sum(self, rhs: u64) -> Self {
        choose|r: Self|
            r.wf() && r@.rank(A as nat) == (self@.rank(A as nat) + rhs) % (
            Self::value_count() as int)
    }

    /// The value whose rank is that of `self` minus `rhs`, wrapped around the
    /// number of values.
    pub open spec fn wrapped_difference(self, rhs: u64) -> Self {
        choose|r: Self|
            r.wf() && r@.rank(A as nat) == (self@.rank(A as nat) - rhs) % (
            Self::value_count() as int)
    }

    /// Computes `value_count()`.
    fn value_count_exec() -> (r: u64)
        requires
            A <= B <= 19,
        ensures
            r == Self::value_count(),
    {
        let mut total: u64 = 0;
        let mut length: u8 = A;
        while length <= B
            invariant
                A <= length <= B + 1,
                B <= 19,
                total == count_below(A as nat, length as nat),
            decreases B + 1 - length,
        {
            proof {
                lemma_count_below_bound(A as nat, (length + 1) as nat);
                lemma_pow10_monotonic((length + 1) as nat, 20);
                reveal_with_fuel(pow10, 21);
                assert(pow10(20) == 100000000000000000000);
            }
            total = total + max_number_for_length(length) + 1;
            length = length + 1;
        }
        total
    }

    /// The largest value of the current length: all nines, no leading zeros.
    pub fn max_number_for_current_length(&self) -> (r: Self)
        requires
            self.wf(),
            self@.len() <= 19,
        ensures
            r.wf(),
            r@ == (PaddedView { leading_zeros: 0, number: (pow10(self@.len()) - 1) as nat }),
    {
        let length = self.len();
        proof {
            lemma_digit_count_of_max(length as nat);
        }
        Self::new_unchecked(0, max_number_for_length(length))
    }

    /// The largest value of the maximum length: `B` nines.
    pub fn max_number_for_max_length() -> (r: Self)
        requires
            A <= B <= 19,
        ensures
            r.wf(),
            r@ == (PaddedView { leading_zeros: 0, number: (pow10(B as nat) - 1) as nat }),
            r@.rank(A as nat) == Self::value_count() - 1,
    {
        proof {
            lemma_digit_count_of_max(B as nat);
            lemma_pow10_positive(B as nat);
        }
        Self::new_unchecked(0, max_number_for_length(B))
    }

    /// The smallest value of the minimum length: `A` zeros.
    pub fn min_number_for_min_length() -> (r: Self)
        requires
            A <= B,
        ensures
            r.wf(),
            r@ == (PaddedView { leading_zeros: A as nat, number: 0 }),
            r@.rank(A as nat) == 0,
    {
        Self::new_unchecked(A, 0)
    }

    /// Adds `rhs`, growing by one digit each time the current length runs
    /// out. Returns the sum while it stays within length `B`, and otherwise
    /// how far it went past the largest value.
    fn add_impl(self, rhs: u64) -> (r: Result<Self, u64>)
        requires
            self.wf(),
            B <= 19,
        ensures
            (r is Ok) <==> self@.rank(A as nat) + rhs < Self::value_count(),
            match r {
                Ok(v) => v.wf() && v@.rank(A as nat) == self@.rank(A as nat) + rhs,
                Err(excess) => excess == self@.rank(A as nat) + rhs - Self::value_count(),
            },
    {
        let mut current = self;
        let mut remaining = rhs;
        loop
            invariant
                current.wf(),
                B <= 19,
                current@.rank(A as nat) + remaining == self@.rank(A as nat) + rhs,
            decreases B - current@.len(),
        {
            let length = current.len();
            let number = current.number();
            let max_for_length = max_number_for_length(length);
            proof {
                lemma_digit_count_le(number as nat, length as nat);
            }
            let room = max_for_length - number;
            if remaining <= room {
                // no overflow, the length is kept
                let new_number = number + remaining;
                proof {
                    lemma_digit_count_le(new_number as nat, length as nat);
                    lemma_rank_bounds(
                        PaddedView {
                            leading_zeros: (length - digit_count(new_number as nat)) as nat,
                            number: new_number as nat,
                        },
                        A as nat,
                        B as nat,
                    );
                }
                return Ok(Self::new_unchecked(length - digit_length(new_number), new_number));
            }
            if length == B {
                return Err(remaining - room - 1);
            }
            // step over the boundary onto the smallest value one digit longer
            remaining = remaining - room - 1;
            current = Self::new_unchecked(length + 1, 0);
        }
    }

    /// Subtracts `rhs`, shrinking by one digit each time the current length
    /// runs out. Returns the difference while it stays within length `A`, and
    /// otherwise how far it went below the smallest value, less one.
    fn sub_impl(self, rhs: u64) -> (r: Result<Self, u64>)
        requires
            self.wf(),
            B <= 19,
        ensures
            (r is Ok) <==> rhs <= self@.rank(A as nat),
            match r {
                Ok(v) => v.wf() && v@.rank(A as nat) == self@.rank(A as nat) - rhs,
                Err(deficit) => deficit == rhs - self@.rank(A as nat) - 1,
            },
    {
        let mut current = self;
        let mut remaining = rhs;
        loop
            invariant
                current.wf(),
                B <= 19,
                current@.rank(A as nat) - remaining == self@.rank(A as nat) - rhs,
            decreases current@.len(),
        {
            let length = current.len();
            let number = current.number();
            if remaining <= number {
                // no underflow, the length is kept
                let new_number = number - remaining;
                proof {
                    lemma_digit_count_le(number as nat, length as nat);
                    lemma_digit_count_le(new_number as nat, length as nat);
                }
                return Ok(Self::new_unchecked(length - digit_length(new_number), new_number));
            }
            if length == A {
                return Err(remaining - number - 1);
            }
            // step over the boundary onto the largest value one digit shorter
            proof {
                lemma_digit_count_of_max((length - 1) as nat);
                lemma_pow10_positive((length - 1) as nat);
            }
            remaining = remaining - number - 1;
            current = Self::new_unchecked(0, max_number_for_length(length - 1));
        }
    }

    /// Wrapping addition: past the largest value of length `B`, counting
    /// resumes at the smallest value of length `A`.
    pub fn wrapping_add(self, rhs: u64) -> (r: Self)
        requires
            self.wf(),
            B <= 19,
        ensures
            r.wf(),
            r@.rank(A as nat) == (self@.rank(A as nat) + rhs) % (Self::value_count() as int),
            self@.number + rhs < pow10(self@.len()) ==> r@ == with_magnitude(
                self@,
                (self@.number + rhs) as nat,
            ),
    {
        proof {
            lemma_rank_bounds(self@, A as nat, B as nat);
        }
        let ghost view = self@;
        let r = match self.add_impl(rhs) {
            Ok(sum) => {
                proof {
                    vstd::arithmetic::div_mod::lemma_small_mod(
                        (self@.rank(A as nat) + rhs) as nat,
                        Self::value_count(),
                    );
                }
                sum
            },
            Err(excess) => {
                let start = Self::min_number_for_min_length();
                let count = Self::value_count_exec();
                proof {
                    vstd::arithmetic::div_mod::lemma_mod_sub_multiples_vanish(
                        (self@.rank(A as nat) + rhs) as int,
                        count as int,
                    );
                }
                start.saturating_add(excess % count)
            },
        };
        proof {
            let n = (view.number + rhs) as nat;
            if n < pow10(view.len()) {
                lemma_with_magnitude(view, n, A as nat, B as nat);
                vstd::arithmetic::div_mod::lemma_small_mod(
                    with_magnitude(view, n).rank(A as nat),
                    Self::value_count(),
                );
                lemma_rank_injective(r@, with_magnitude(view, n), A as nat, B as nat);
            }
        }
        r
    }

    /// Saturating addition: past the largest value of length `B`, the result
    /// stays at that value.
    pub fn saturating_add(self, rhs: u64) -> (r: Self)
        requires
            self.wf(),
            B <= 19,
        ensures
            r.wf(),
            r@.rank(A as nat) == if self@.rank(A as nat) + rhs < Self::value_count() {
                self@.rank(A as nat) + rhs
            } else {
                Self::value_count() - 1
            },
            rhs == 0 ==> r@ == self@,
            self@.number + rhs < pow10(self@.len()) ==> r@ == with_magnitude(
                self@,
                (self@.number + rhs) as nat,
            ),
    {
        proof {
            lemma_rank_bounds(self@, A as nat, B as nat);
        }
        let ghost view = self@;
        let r = match self.add_impl(rhs) {
            Ok(sum) => sum,
            Err(_) => Self::max_number_for_max_length(),
        };
        proof {
            if rhs == 0 {
                lemma_rank_injective(r@, view, A as nat, B as nat);
            }
            let n = (view.number + rhs) as nat;
            if n < pow10(view.len()) {
                lemma_with_magnitude(view, n, A as nat, B as nat);
                lemma_rank_injective(r@, with_magnitude(view, n), A as nat, B as nat);
            }
        }
        r
    }

    /// Wrapping subtraction: below the smallest value of length `A`, counting
    /// resumes at the largest value of length `B`.
    pub fn wrapping_sub(self, rhs: u64) -> (r: Self)
        requires
            self.wf(),
            B <= 19,
        ensures
            r.wf(),
            r@.rank(A as nat) == (self@.rank(A as nat) - rhs) % (Self::value_count() as int),
            rhs <= self@.number ==> r@ == with_magnitude(self@, (self@.number - rhs) as nat),
    {
        proof {
            lemma_rank_bounds(self@, A as nat, B as nat);
        }
        let ghost view = self@;
        let r = match self.sub_impl(rhs) {
            Ok(difference) => {
                proof {
                    vstd::arithmetic::div_mod::lemma_small_mod(
                        (self@.rank(A as nat) - rhs) as nat,
                        Self::value_count(),
                    );
                }
                difference
            },
            Err(deficit) => {
                let end = Self::max_number_for_max_length();
                let count = Self::value_count_exec();
                let back = deficit % count;
                proof {
                    let d = deficit as int;
                    let c = count as int;
                    vstd::arithmetic::div_mod::lemma_fundamental_div_mod(d, c);
                    let q = d / c;
                    let m = d % c;
                    assert(0 <= m < c);
                    assert(-(d + 1) == (-q - 1) * c + (c - 1 - m)) by (nonlinear_arith)
                        requires
                            d == c * q + m,
                    ;
                    vstd::arithmetic::div_mod::lemma_fundamental_div_mod_converse_mod(
                        -(d + 1),
                        c,
                        -(d / c) - 1,
                        c - 1 - d % c,
                    );
                }
                end.saturating_sub(back)
            },
        };
        proof {
            if rhs <= view.number {
                let n = (view.number - rhs) as nat;
                lemma_digit_count_le(view.number, view.len());
                lemma_with_magnitude(view, n, A as nat, B as nat);
                vstd::arithmetic::div_mod::lemma_small_mod(
                    with_magnitude(view, n).rank(A as nat),
                    Self::value_count(),
                );
                lemma_rank_injective(r@, with_magnitude(view, n), A as nat, B as nat);
            }
        }
        r
    }

    /// Saturating subtraction: below the smallest value of length `A`, the
    /// result stays at that value.
    pub fn saturating_sub(self, rhs: u64) -> (r: Self)
        requires
            self.wf(),
            B <= 19,
        ensures
            r.wf(),
            r@.rank(A as nat) == if rhs <= self@.rank(A as nat) {
                self@.rank(A as nat) - rhs
            } else {
                0
            },
            rhs == 0 ==> r@ == self@,
            rhs <= self@.number ==> r@ == with_magnitude(self@, (self@.number - rhs) as nat),
    {
        let ghost view = self@;
        let r = match self.sub_impl(rhs) {
            Ok(difference) => difference,
            Err(_) => Self::min_number_for_min_length(),
        };
        proof {
            if rhs == 0 {
                lemma_rank_injective(r@, view, A as nat, B as nat);
            }
            if rhs <= view.number {
                let n = (view.number - rhs) as nat;
                lemma_digit_count_le(view.number, view.len());
                lemma_with_magnitude(view, n, A as nat, B as nat);
                lemma_rank_injective(r@, with_magnitude(view, n), A as nat, B as nat);
            }
        }
        r
    }
}

/// `a + rhs` is `a.wrapping_add(rhs)`.
impl<const A: u8, const B: u8> core::ops::Add<u64> for PaddedNumber<A, B> {
    type Output = Self;

    fn add(self, rhs: u64) -> (r: Self) {
        let r = self.wrapping_add(rhs);
        proof {
            let spec = self.wrapped_sum(rhs);
            lemma_rank_injective(r@, spec@, A as nat, B as nat);
            Self::lemma_view_injective(r, spec);
        }
        r
    }
}

impl<const A: u8, const B: u8> vstd::std_specs::ops::AddSpecImpl<u64> for PaddedNumber<A, B> {
    open spec fn obeys_add_spec() -> bool {
        true
    }

    open spec fn add_req(self, rhs: u64) -> bool {
        self.wf() && B <= 19
    }

    open spec fn add_spec(self, rhs: u64) -> Self {
        self.wrapped_sum(rhs)
    }
}

/// `a - rhs` is `a.wrapping_sub(rhs)`.
impl<const A: u8, const B: u8> core::ops::Sub<u64> for PaddedNumber<A, B> {
    type Output = Self;

    fn sub(self, rhs: u64) -> (r: Self) {
        let r = self.wrapping_sub(rhs);
        proof {
            let spec = self.wrapped_difference(rhs);
            lemma_rank_injective(r@, spec@, A as nat, B as nat);
            Self::lemma_view_injective(r, spec);
        }
        r
    }
}

impl<const A: u8, const B: u8> vstd::std_specs::ops::SubSpecImpl<u64> for PaddedNumber<A, B> {
    open spec fn obeys_sub_spec() -> bool {
        true
    }

    open spec fn sub_req(self, rhs: u64) -> bool {
        self.wf() && B <= 19
    }

    open spec fn sub_spec(self, rhs: u64) -> Self {
        self.wrapped_difference(rhs)
    }
}

} // verus!
