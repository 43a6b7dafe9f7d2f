//! Exact fractions, for the figures that are shown as percentages.

use vstd::prelude::*;

verus! {

/// The fraction `num / den`. A zero denominator stands for a figure that is not
/// defined.
#[derive(Debug, Clone, Copy, PartialEq, Eq, Structural)]
pub struct Ratio {
    pub num: u128,
    pub den: u128,
}

} // verus!
