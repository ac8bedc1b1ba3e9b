//! Widths for byte values.
use vstd::prelude::*;
use crate::model::is_min_width;
use super::{width_for, NO_WIDTH};

verus! {

/// The largest value a byte takes.
pub const BYTE_MAX: u32 = 255;

/// Returns the fewest cat sounds per byte for this base.
pub fn char_length(base: u32) -> (r: u32)
    ensures
        base >= 2 ==> is_min_width(base as int, BYTE_MAX as int, r as int),
        base < 2 ==> r == NO_WIDTH,
{
    width_for(base, BYTE_MAX)
}

} // verus!
