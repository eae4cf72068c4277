//! A verified feedforward neural-network trainer: a dense-matrix algebra
//! layer plus a multi-layer perceptron with forward inference,
//! backpropagation, and gradient-descent weight updates.
//!
//! Matrix entries are opaque 32-bit scalar words (in practice the bit
//! patterns of IEEE single-precision numbers). The scalar arithmetic itself
//! is supplied by the caller as operator closures; every contract pins the
//! shape bookkeeping and the data flow exactly, and describes each computed
//! entry through the `ensures` relation of the supplied operators.

pub mod activation;
pub mod error;
pub mod matrix;
pub mod mnist_unpacker;
pub mod network;
