//! A set of C-like enum variants, held as a 32-bit mask.
//!
//! Each element type maps its variants to bit positions below 32 through
//! [`CLike`]; an [`EnumSet`] keeps one bit per position, and its [`Iter`]
//! hands the members back in ascending bit order.

use vstd::prelude::*;

pub mod bits;
pub mod set;
pub mod text;

pub use crate::bits::{ascending, ascending_from, bit_set, has_bit};
pub use crate::set::{encodes, indices, CLike, EnumSet, Iter};
pub use crate::text::{braced, format_entries, joined, texts};
