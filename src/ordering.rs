//! Length-first ordering: a shorter value is always the smaller one.
use std::cmp::Ordering;

use vstd::prelude::*;

use crate::digits::digit_length;
use crate::padded::{PaddedNumber, PaddedView};

verus! {

/// How `a` compares to `b`: by length first, then by magnitude.
pub open spec fn compare(a: PaddedView, b: PaddedView) -> Ordering {
    if a.len() < b.len() {
        Ordering::Less
    } else if a.len() > b.len() {
        Ordering::Greater
    } else if a.number < b.number {
        Ordering::Less
    } else if a.number > b.number {
        Ordering::Greater
    } else {
        Ordering::Equal
    }
}

/// Of two valid values under the same bounds exactly one is smaller, or they
/// are equal; the order is reversed by swapping them, and a shorter value is
/// always the smaller one.
pub proof fn lemma_compare_total(a: PaddedView, b: PaddedView, min: nat, max: nat)
    requires
        a.valid(min, max),
        b.valid(min, max),
    ensures
        (compare(a, b) == Ordering::Equal) <==> a == b,
        (compare(a, b) == Ordering::Less) <==> (compare(b, a) == Ordering::Greater),
        a.len() < b.len() ==> compare(a, b) == Ordering::Less,
{
}

/// The order is transitive.
pub proof fn lemma_compare_transitive(a: PaddedView, b: PaddedView, c: PaddedView)
    requires
        compare(a, b) == Ordering::Less,
        compare(b, c) == Ordering::Less,
    ensures
        compare(a, c) == Ordering::Less,
{
}

impl<const A: u8, const B: u8> PaddedNumber<A, B> {
    /// Compares by length first; values of equal length compare by magnitude.
    pub fn cmp(&self, other: &Self) -> (r: Ordering)
        ensures
            r == compare(self@, other@),
    {
        let self_len = self.leading_zeros() as u16 + digit_length(self.number()) as u16;
        let other_len = other.leading_zeros() as u16 + digit_length(other.number()) as u16;
        if self_len < other_len {
            Ordering::Less
        } else if self_len > other_len {
            Ordering::Greater
        } else if self.number() < other.number() {
            Ordering::Less
        } else if self.number() > other.number() {
            Ordering::Greater
        } else {
            Ordering::Equal
        }
    }
}

impl<const A: u8, const B: u8> PartialOrd for PaddedNumber<A, B> {
    fn partial_cmp(&self, other: &Self) -> (r: Option<Ordering>) {
        Some(self.cmp(other))
    }
}

impl<const A: u8, const B: u8> vstd::std_specs::cmp::PartialOrdSpecImpl for PaddedNumber<A, B> {
    open spec fn obeys_partial_cmp_spec() -> bool {
        true
    }

    open spec fn partial_cmp_spec(&self, other: &Self) -> Option<Ordering> {
        Some(compare(self@, other@))
    }
}

} // verus!
