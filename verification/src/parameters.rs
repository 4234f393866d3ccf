//! Typed wrappers for the configuration integers of a decomposition.
use vstd::prelude::*;

verus! {

/// The logarithm in base two of the digit base `B` of a decomposition.
#[derive(Clone, Copy, Debug, PartialEq, Eq, Structural)]
pub struct DecompositionBaseLog(pub usize);

/// The number of digits that a decomposition retains.
#[derive(Clone, Copy, Debug, PartialEq, Eq, Structural)]
pub struct DecompositionLevelCount(pub usize);

/// The position of one digit in a decomposition, counted from the most
/// significant digit, which has level one.
#[derive(Clone, Copy, Debug, PartialEq, Eq, Structural)]
pub struct DecompositionLevel(pub usize);

} // verus!
