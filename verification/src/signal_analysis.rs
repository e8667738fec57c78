//! Signal analysis: detect periodic patterns in activity signals.

use vstd::prelude::*;

verus! {

/// Signal analysis for detecting periodic patterns.
#[derive(Debug, Clone)]
pub struct SignalAnalysis;

} // verus!
