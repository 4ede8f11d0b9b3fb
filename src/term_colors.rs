//! The layout of the table of the 256 terminal colours.

use vstd::prelude::*;

verus! {

/// The table of terminal colours.
pub struct TermColors {}

impl TermColors {
    /// Whether the colour `i` closes a row: the 16 system colours make the
    /// first row, then come rows of six.
    pub fn ends_row(i: u32) -> (r: bool)
        ensures
            r == (i == 15 || (i > 15 && (i - 15) % 6 == 0)),
    {
        i == 15 || (i > 15 && (i - 15) % 6 == 0)
    }
}

} // verus!
