//! Laplace transform: L{f}(s) = integral_0^inf f(t) * e^(-st) dt.

use vstd::prelude::*;

verus! {

/// Laplace transform and common transform pairs.
#[derive(Debug, Clone)]
pub struct LaplaceTransform;

} // verus!
