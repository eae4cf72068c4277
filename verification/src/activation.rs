//! The activation capability: a closed set of named variants, chosen once at
//! network construction and immutable thereafter.
//!
//! A variant is a serializable tag, not a pair of function pointers: a saved
//! model stores the name and can be reloaded without relinking code. The two
//! scalar operations a variant stands for — forward evaluation and derivative
//! evaluation — are numeric functions on scalar words, and callers hand them
//! to the network as operator closures alongside this tag.

use vstd::prelude::*;

verus! {

/// The named activation function of a network.
///
/// `Sigmoid` stands for `1 / (1 + e^-x)` with derivative
/// `sigmoid(x) * (1 - sigmoid(x))`; `Relu` stands for `max(0, x)` with
/// derivative `1` for `x > 0` and `0` otherwise. Both derivatives are
/// evaluated on the pre-activation value.
#[derive(Clone, Copy, Debug, PartialEq, Eq, Structural)]
pub enum ActivationFunction {
    Sigmoid,
    Relu,
}

} // verus!
