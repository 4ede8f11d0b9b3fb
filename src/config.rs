//! The settings of the program.

use vstd::prelude::*;

use crate::branches::Branches;
use crate::open::Open;

verus! {

/// Everything the configuration file sets.
pub struct Config {
    pub open: Open,
    pub branches: Branches,
}

} // verus!
