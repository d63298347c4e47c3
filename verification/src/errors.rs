//! Error conditions signalled by the sketch.

use vstd::prelude::*;

verus! {

/// General error type for the sketch: either an invalid quantile was
/// requested, or two sketches with different configurations were merged.
#[derive(Debug, Clone, PartialEq, Eq, Structural)]
pub enum DDSketchError {
    /// The requested quantile lies outside `[0, 1]`.
    Quantile,
    /// The two sketches were built with different configurations.
    Merge,
}

} // verus!
