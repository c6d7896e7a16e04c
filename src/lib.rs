//! Unsigned decimal numbers whose leading zeros are significant.
//!
//! `"0"` and `"00"` are distinct values here. A value keeps its textual width
//! between the bounds `A` (inclusive minimum length) and `B` (inclusive maximum
//! length) and supports length-aware ordering, wrapping and saturating
//! arithmetic, and the extraction of digit sections.
pub mod arithmetic;
pub mod digits;
pub mod error;
pub mod ordering;
pub mod padded;
pub mod parse;
pub mod resize;
pub mod section;

pub use error::{InvalidNumberKind, ParsePaddedNumberError};
pub use padded::{PaddedNumber, PaddedView};
pub use parse::parse;
pub use resize::ResizePaddedNumber;
