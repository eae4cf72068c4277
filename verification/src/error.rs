//! The error taxonomy shared by the matrix algebra and the network: every
//! variant is a precondition violation detected before any computation
//! proceeds, and carries the offending dimensions.

use vstd::prelude::*;

verus! {

/// A caller handed an operation operands whose dimensions violate its
/// precondition. No variant is ever recovered from silently; the operation
/// aborts before it touches any data.
#[derive(Clone, Copy, Debug, PartialEq, Eq, Structural)]
pub enum Error {
    /// Two operands whose shapes do not fit the requested operation:
    /// elementwise operations need identical shapes, the conventional
    /// product needs `left_cols == right_rows`.
    ShapeMismatch {
        left_rows: usize,
        left_cols: usize,
        right_rows: usize,
        right_cols: usize,
    },
    /// A network was asked for with fewer than two layer sizes.
    InvalidTopology { layer_count: usize },
    /// An input or expected-output vector whose length does not match the
    /// corresponding layer size.
    InputArityMismatch { expected: usize, found: usize },
}

} // verus!
