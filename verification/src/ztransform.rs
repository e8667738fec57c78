//! Z-transform for discrete systems.

use vstd::prelude::*;

verus! {

/// Z-transform: X(z) = sum_{n=0}^{N-1} x[n] * z^{-n}.
#[derive(Debug, Clone)]
pub struct ZTransform;

} // verus!
