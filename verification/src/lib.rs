//! Signed gadget decomposition of modular integers.
//!
//! A value `theta` modulo `q` is re-expressed as a short sequence of small
//! balanced digits against the base `B = 2^base_log`, one digit per level,
//! such that the weighted sum of the digits reproduces `theta` up to half of
//! the smallest representable step. Two variants are offered: one for the
//! native modulus `2^W` of a `W`-bit unsigned integer, and one for an
//! arbitrary modulus that fits the integer type.
pub mod balanced;
pub mod ciphertext_modulus;
pub mod decomposition;
pub mod error;
pub mod native;
pub mod non_native;
pub mod numeric;
pub mod parameters;
pub mod primitive;
pub mod rounding;
pub mod term;
pub mod theorems;

pub use crate::ciphertext_modulus::CiphertextModulus;
pub use crate::error::ConfigurationError;
pub use crate::native::{SignedDecomposer, SignedDecompositionIter};
pub use crate::non_native::{SignedDecomposerNonNative, SignedDecompositionNonNativeIter};
pub use crate::numeric::{ScratchInteger, UnsignedInteger};
pub use crate::parameters::{DecompositionBaseLog, DecompositionLevel, DecompositionLevelCount};
pub use crate::term::{DecompositionTerm, DecompositionTermNonNative};
