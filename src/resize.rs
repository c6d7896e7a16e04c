//! Moving a padded number to narrower length bounds.
use vstd::prelude::*;

use crate::padded::{PaddedNumber, PaddedView};

verus! {

/// Resize a padded number to the bounds `[A_1, B_1]`, which must lie within
/// its own: the new minimum at least the old one, the new maximum at most the
/// old one. The value itself is kept.
pub trait ResizePaddedNumber<const A_1: u8, const B_1: u8> {
    /// Whether the value may be moved to the bounds `[A_1, B_1]`.
    spec fn can_resize(&self) -> bool;

    /// The value that the resized number holds.
    spec fn resized_view(&self) -> PaddedView;

    /// Resize a padded number.
    fn resize(&self) -> (r: PaddedNumber<A_1, B_1>)
        requires
            self.can_resize(),
        ensures
            r.wf(),
            r@ == self.resized_view(),
    ;
}

impl<const A_0: u8, const B_0: u8, const A_1: u8, const B_1: u8> ResizePaddedNumber<A_1, B_1> for PaddedNumber<
    A_0,
    B_0,
> {
    /// The new bounds lie within the old ones, and the value's length fits
    /// them.
    open spec fn can_resize(&self) -> bool {
        &&& A_0 <= A_1
        &&& B_1 <= B_0
        &&& self@.valid(A_1 as nat, B_1 as nat)
    }

    open spec fn resized_view(&self) -> PaddedView {
        self@
    }

    fn resize(&self) -> (r: PaddedNumber<A_1, B_1>) {
        PaddedNumber::new_unchecked(self.leading_zeros(), self.number())
    }
}

} // verus!
