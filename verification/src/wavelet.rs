//! Wavelet transform basics: dyadic signal lengths for the Haar transform.

use vstd::prelude::*;
use crate::bits::is_power_of_two;
use crate::dft::Dft;

verus! {

/// Wavelet transform operations.
#[derive(Debug, Clone)]
pub struct Wavelet;

impl Wavelet {
    /// Check if n is a power of 2: the Haar transform decomposes only
    /// signals of such lengths.
    pub fn is_power_of_2(n: usize) -> (r: bool)
        ensures
            r == is_power_of_two(n as nat),
    {
        Dft::is_power_of_2(n)
    }
}

} // verus!
