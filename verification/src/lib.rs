//! A chord-progression generator built on a first-order Markov model.
//!
//! The model learns a column-stochastic transition matrix from a training
//! sequence of chords.  All probabilities are kept as exact integer ratios:
//! the matrix of raw transition counts together with per-column totals, and a
//! scaled integer matrix whose powers drive conditional (boundary-constrained)
//! generation.  Sampling draws from integer weight vectors, which represent
//! the same categorical distributions as the normalized fractions would.

pub mod arith;
pub mod chord;
pub mod error;
pub mod generator;
pub mod matrix;
pub mod note;
pub mod sampler;

pub use error::Error;
