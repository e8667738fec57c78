//! Windowing functions for spectral analysis.

use vstd::prelude::*;

verus! {

/// Windowing functions for spectral analysis.
#[derive(Debug, Clone)]
pub struct Windowing;

} // verus!
