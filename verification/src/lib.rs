//! Hint-checked arithmetic on the twisted Edwards curve ed25519.
//!
//! Field elements are held as eight little-endian `u32` limbs. A prover
//! hands out hints (the claimed results of point additions and doublings);
//! the evaluator accepts a hint only when it satisfies the curve's addition
//! equations modulo `2^255 - 19`.
use vstd::prelude::*;

pub mod dual_table_evaluator;
pub mod eddsa;
pub mod evaluator;
pub mod field;
pub mod group;
pub mod hinter;
pub mod host_hinter;
pub mod limbs;
pub mod run;
pub mod scalar_mul;
pub mod structs;
pub mod table_generation;

pub use dual_table_evaluator::DualTableEvaluator;
pub use eddsa::AffineEdwardsPoint;
pub use evaluator::Evaluator;
pub use hinter::{ComputeHintBuffer, ComputeHintStore, ComputeHintStreamer, DecompressionHint, Hint};
pub use host_hinter::HintBuilder;
pub use structs::{CompressedEdwardsY, TEPoint};
pub use table_generation::TableGeneration;

verus! {

/// Why an evaluation was refused.
#[derive(Debug, Clone, Copy, PartialEq, Eq)]
pub enum EvaluationError {
    /// A hint does not satisfy the equation it was supposed to satisfy.
    WrongHint,
}

} // verus!
