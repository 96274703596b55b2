//! What the engine refuses, and why.

use vstd::prelude::*;
use crate::shape::Shape;

verus! {

/// The reasons for which a request is turned down. None of them is
/// transient: each one names a mistake in the configuration or in the data.
#[derive(Clone, Copy, Debug, PartialEq, Eq, Structural)]
pub enum NetworkError {
    /// A network needs an input layer and an output layer at the least.
    TooFewLayers,
    /// The layer at this position has no unit; it is the first such layer.
    EmptyLayer(usize),
    /// A tensor handed to the engine has another shape than the layer sizes
    /// call for.
    ShapeMismatch { expected: Shape, found: Shape },
    /// A mini-batch without examples has no average gradient, and a
    /// mini-batch size of zero cuts a training set into nothing.
    EmptyBatch,
    /// A mini-batch names an example that the training set does not hold.
    UnknownExample(usize),
    /// Scores and labels of a test set differ in number.
    LabelCount { scores: usize, labels: usize },
}

} // verus!
